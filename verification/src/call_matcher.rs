//! Matching of calls against the registry.

use vstd::prelude::*;

use crate::chalk;
use crate::chalk::{ChalkClassRelation, ChalkTypeShape, ModuleOrigin};
use crate::provenance;
use crate::provenance::{
    CallDefinitionOriginKind, CallModuleProvenance, CallTarget, KnownCallTarget, ModuleSymbol,
};
use crate::semantic::{Db, Definition, FileRange, Type};
use crate::supported_functions::{
    CallKey, CallKind, SupportedArg, SupportedFuncs, SupportedSignature, SupportedTy,
};
use crate::text;
use crate::type_matcher;
use crate::type_matcher::TypeMatch;

verus! {

broadcast use vstd::string::group_string_axioms;

/// How many combinations of argument types a call is split into before its match is left open.
pub const MAX_CALL_ALTERNATIVES: usize = 256;

/// One argument of a call, in source order.
#[derive(Clone, Copy, Debug)]
pub enum ObservedArgument<'a> {
    Positional(Type),
    Keyword { name: &'a str, ty: Type },
}

/// One thing that a call may lead to.
#[derive(Clone, Copy, Debug)]
pub enum ObservedCallTarget<'a> {
    Resolved(CallTarget),
    Known(KnownCallTarget),
    ModuleProvenance(&'a CallModuleProvenance),
    Deferred,
}

/// A call with one thing that it may lead to.
#[derive(Clone, Copy, Debug)]
pub struct ObservedCall<'a> {
    pub target: ObservedCallTarget<'a>,
    pub arguments: &'a Vec<ObservedArgument<'a>>,
    pub receiver: Option<Type>,
}

/// What identifies the target of a call.
#[derive(Debug)]
pub enum CallMatchIdentity {
    Definition(Definition),
    Known(KnownCallTarget),
    ModuleSymbol { module: String, symbol: String },
}

/// The target of a call as the registry knows it.
#[derive(Debug)]
pub struct CallMatchTarget {
    pub identity: CallMatchIdentity,
    pub kind: CallKind,
    pub name: String,
    pub display_label: String,
    pub definition_range: Option<FileRange>,
    /// The registry parameter that the receiver occupies.
    pub receiver_parameter: Option<u32>,
}

/// Why a call does not match.
#[derive(Clone, Copy, Debug, PartialEq, Eq, Hash, Structural)]
pub enum CallNoMatchReason {
    MissingRegistryEntry,
    SignatureMismatch,
}

/// The result of matching a call with one thing that it may lead to.
#[derive(Debug)]
pub enum CallMatch {
    Match(CallMatchTarget),
    NoMatch { target: CallMatchTarget, reason: CallNoMatchReason },
    Inconclusive,
}

// ---------------------------------------------------------------------------------------------
// Models
// ---------------------------------------------------------------------------------------------

/// What identifies the target of a call.
pub enum Identity {
    Definition(Definition),
    Known(KnownCallTarget),
    ModuleSymbol { module: Seq<char>, symbol: Seq<char> },
}

/// The target of a call as the registry knows it.
pub struct Target {
    pub identity: Identity,
    pub kind: CallKind,
    pub name: Seq<char>,
    pub label: Seq<char>,
    pub range: Option<FileRange>,
    pub receiver: Option<u32>,
}

/// The result of matching a call.
pub enum Outcome {
    Match(Target),
    NoMatch { target: Target, reason: CallNoMatchReason },
    Inconclusive,
}

impl View for CallMatchIdentity {
    type V = Identity;

    open spec fn view(&self) -> Identity {
        match self {
            CallMatchIdentity::Definition(definition) => Identity::Definition(*definition),
            CallMatchIdentity::Known(known) => Identity::Known(*known),
            CallMatchIdentity::ModuleSymbol { module, symbol } => Identity::ModuleSymbol {
                module: module@,
                symbol: symbol@,
            },
        }
    }
}

impl View for CallMatchTarget {
    type V = Target;

    open spec fn view(&self) -> Target {
        Target {
            identity: self.identity@,
            kind: self.kind,
            name: self.name@,
            label: self.display_label@,
            range: self.definition_range,
            receiver: self.receiver_parameter,
        }
    }
}

impl CallMatchIdentity {
    /// The same identity once more.
    pub fn copied(&self) -> (copy: Self)
        ensures
            copy@ == self@,
    {
        match self {
            CallMatchIdentity::Definition(definition) => CallMatchIdentity::Definition(*definition),
            CallMatchIdentity::Known(known) => CallMatchIdentity::Known(*known),
            CallMatchIdentity::ModuleSymbol { module, symbol } => CallMatchIdentity::ModuleSymbol {
                module: module.clone(),
                symbol: symbol.clone(),
            },
        }
    }
}

impl CallMatchTarget {
    /// The same target once more.
    pub fn copied(&self) -> (copy: Self)
        ensures
            copy@ == self@,
    {
        CallMatchTarget {
            identity: self.identity.copied(),
            kind: self.kind,
            name: self.name.clone(),
            display_label: self.display_label.clone(),
            definition_range: self.definition_range,
            receiver_parameter: self.receiver_parameter,
        }
    }
}

impl View for CallMatch {
    type V = Outcome;

    open spec fn view(&self) -> Outcome {
        match self {
            CallMatch::Match(target) => Outcome::Match(target@),
            CallMatch::NoMatch { target, reason } => Outcome::NoMatch {
                target: target@,
                reason: *reason,
            },
            CallMatch::Inconclusive => Outcome::Inconclusive,
        }
    }
}

/// What an argument is: a value of a type, or a module that no expression names.
pub enum Actual {
    Native(Type),
    Module { name: Seq<char>, origin: ModuleOrigin },
}

/// An argument as it is matched.
pub enum Argument {
    Positional(Actual),
    Keyword { name: Seq<char>, ty: Actual },
}

/// The argument that a call observes.
pub open spec fn observed(argument: ObservedArgument<'_>) -> Argument {
    match argument {
        ObservedArgument::Positional(ty) => Argument::Positional(Actual::Native(ty)),
        ObservedArgument::Keyword { name, ty } => Argument::Keyword {
            name: name@,
            ty: Actual::Native(ty),
        },
    }
}

/// The arguments that a call observes.
pub open spec fn observed_all(arguments: Seq<ObservedArgument<'_>>) -> Seq<Argument> {
    Seq::new(arguments.len(), |i: int| observed(arguments[i]))
}

// ---------------------------------------------------------------------------------------------
// Binding of arguments
// ---------------------------------------------------------------------------------------------

/// The first parameter, from a place on, with a name.
pub open spec fn named_parameter(
    parameters: Seq<SupportedArg>,
    name: Seq<char>,
    at: int,
) -> Option<int>
    decreases parameters.len() - at,
{
    if at < 0 || at >= parameters.len() {
        None
    } else if parameters[at].label() == Some(name) {
        Some(at)
    } else {
        named_parameter(parameters, name, at + 1)
    }
}

/// What parameters hold while arguments are bound.
pub struct Binding {
    pub bound: Seq<Option<Actual>>,
    pub next: int,
    pub saw_keyword: bool,
}

/// Binds one more argument: a positional one to the next parameter, a keyword to the parameter of
/// its name. Positional arguments do not follow keywords, and no parameter is bound twice by name.
pub open spec fn bind_one(
    parameters: Seq<SupportedArg>,
    state: Binding,
    argument: Argument,
) -> Option<Binding> {
    match argument {
        Argument::Positional(ty) => if state.saw_keyword || state.next == parameters.len() {
            None
        } else {
            Some(
                Binding {
                    bound: state.bound.update(state.next, Some(ty)),
                    next: state.next + 1,
                    saw_keyword: false,
                },
            )
        },
        Argument::Keyword { name, ty } => match named_parameter(parameters, name, 0) {
            None => None,
            Some(index) => if state.bound[index] is Some {
                None
            } else {
                Some(
                    Binding {
                        bound: state.bound.update(index, Some(ty)),
                        next: state.next,
                        saw_keyword: true,
                    },
                )
            },
        },
    }
}

/// Binds arguments one after the other.
pub open spec fn bind_all(parameters: Seq<SupportedArg>, arguments: Seq<Argument>) -> Option<
    Binding,
>
    decreases arguments.len(),
{
    if arguments.len() == 0 {
        Some(
            Binding {
                bound: Seq::new(parameters.len(), |i: int| None::<Actual>),
                next: 0,
                saw_keyword: false,
            },
        )
    } else {
        match bind_all(parameters, arguments.drop_last()) {
            None => None,
            Some(state) => bind_one(parameters, state, arguments.last()),
        }
    }
}

/// What the parameters of a signature hold in a call, if the signature takes it: every parameter
/// without a default is bound.
pub open spec fn bind(signature: SupportedSignature, arguments: Seq<Argument>) -> Option<
    Seq<Option<Actual>>,
> {
    let parameters = signature.args@;
    match bind_all(parameters, arguments) {
        None => None,
        Some(state) => if forall|i: int|
            0 <= i < parameters.len() ==> (#[trigger] parameters[i]).has_default || state.bound[i]
                is Some {
            Some(state.bound)
        } else {
            None
        },
    }
}

// ---------------------------------------------------------------------------------------------
// Matching of arguments
// ---------------------------------------------------------------------------------------------

/// The match of an argument against a registry type.
pub open spec fn actual_match(db: Db, actual: Actual, expected: SupportedTy) -> TypeMatch {
    match expected {
        SupportedTy::Module { name, .. } => match actual {
            Actual::Module { name: module, origin } => if name@ != module {
                TypeMatch::NoMatch
            } else {
                type_matcher::as_match(chalk::origin_relation(origin))
            },
            Actual::Native(ty) => type_matcher::as_match(
                chalk::receiver_relation(db, ty, name@),
            ),
        },
        _ => match actual {
            Actual::Module { .. } => TypeMatch::NoMatch,
            Actual::Native(ty) => type_matcher::type_match(
                db,
                type_matcher::DEFAULT_EXPANSION_LIMIT as nat,
                ty,
                expected,
            ),
        },
    }
}

/// The matches of bound parameters, in order.
pub open spec fn bound_matches(
    db: Db,
    parameters: Seq<SupportedArg>,
    bound: Seq<Option<Actual>>,
) -> Seq<TypeMatch>
    decreases bound.len(),
{
    if bound.len() == 0 || parameters.len() == 0 {
        Seq::empty()
    } else {
        let before = bound_matches(db, parameters.drop_last(), bound.drop_last());
        match bound.last() {
            Some(actual) => before.push(actual_match(db, actual, parameters.last().ty)),
            None => before,
        }
    }
}

/// The match of a call that a signature takes.
pub open spec fn bound_match(
    db: Db,
    signature: SupportedSignature,
    bound: Seq<Option<Actual>>,
) -> TypeMatch {
    TypeMatch::all_of(bound_matches(db, signature.args@, bound))
}

/// The match of a call against one signature.
pub open spec fn signature_match(
    db: Db,
    signature: SupportedSignature,
    arguments: Seq<Argument>,
) -> TypeMatch {
    match bind(signature, arguments) {
        None => TypeMatch::NoMatch,
        Some(bound) => bound_match(db, signature, bound),
    }
}

/// The match of a call against several signatures: one that matches suffices.
pub open spec fn overload_match(
    db: Db,
    signatures: Seq<SupportedSignature>,
    arguments: Seq<Argument>,
) -> TypeMatch {
    TypeMatch::any_of(
        Seq::new(signatures.len(), |i: int| signature_match(db, signatures[i], arguments)),
    )
}

// ---------------------------------------------------------------------------------------------
// Alternatives
// ---------------------------------------------------------------------------------------------

/// How much work types at a depth can bring.
pub open spec fn weight(depth: nat) -> nat
    decreases MAX_CALL_ALTERNATIVES - depth,
{
    if depth >= MAX_CALL_ALTERNATIVES {
        1
    } else {
        257 * weight(depth + 1)
    }
}

/// How much work is left.
pub open spec fn work_left(pending: Seq<(Type, nat)>) -> nat
    decreases pending.len(),
{
    if pending.len() == 0 {
        0
    } else {
        work_left(pending.drop_last()) + weight(pending.last().1)
    }
}

pub proof fn lemma_weight_positive(depth: nat)
    ensures
        weight(depth) >= 1,
    decreases MAX_CALL_ALTERNATIVES - depth,
{
    if depth < MAX_CALL_ALTERNATIVES {
        lemma_weight_positive(depth + 1);
    }
}

/// Types at one depth.
pub open spec fn at_depth(types: Seq<Type>, depth: nat) -> Seq<(Type, nat)> {
    Seq::new(types.len(), |i: int| (types[i], depth))
}

pub proof fn lemma_work_left_append(pending: Seq<(Type, nat)>, types: Seq<Type>, depth: nat)
    ensures
        work_left(pending + at_depth(types, depth)) == work_left(pending) + types.len() * weight(
            depth,
        ),
    decreases types.len(),
{
    let added = at_depth(types, depth);
    if types.len() == 0 {
        assert(pending + added =~= pending);
    } else {
        let init = types.drop_last();
        lemma_work_left_append(pending, init, depth);
        assert((pending + added).drop_last() =~= pending + at_depth(init, depth));
        assert((pending + added).last() == (types.last(), depth));
        assert(types.len() * weight(depth) == init.len() * weight(depth) + weight(depth))
            by (nonlinear_arith)
            requires
                types.len() == init.len() + 1,
        ;
    }
}

/// Replacing a pending type by those one level deeper leaves less work.
pub proof fn lemma_work_left_decreases(pending: Seq<(Type, nat)>, types: Seq<Type>)
    requires
        pending.len() > 0,
        pending.last().1 < MAX_CALL_ALTERNATIVES,
        types.len() <= MAX_CALL_ALTERNATIVES,
    ensures
        work_left(pending.drop_last() + at_depth(types, pending.last().1 + 1)) < work_left(
            pending,
        ),
        work_left(pending.drop_last()) < work_left(pending),
{
    let depth = pending.last().1;
    let deeper = weight(depth + 1);
    lemma_work_left_append(pending.drop_last(), types, depth + 1);
    lemma_weight_positive(depth + 1);
    lemma_weight_positive(depth);
    assert(types.len() * deeper <= 256 * deeper) by (nonlinear_arith)
        requires
            types.len() <= 256,
    ;
}

/// The alternatives of pending types, the last of which is taken first; nothing where types are
/// nested too deep or there are too many.
pub open spec fn split_pending(db: Db, pending: Seq<(Type, nat)>, found: Seq<Type>) -> Option<
    Seq<Type>,
>
    decreases work_left(pending),
{
    if pending.len() == 0 {
        Some(found)
    } else {
        let (ty, depth) = pending.last();
        let rest = pending.drop_last();
        if depth >= MAX_CALL_ALTERNATIVES {
            None
        } else {
            match chalk::shape_of(&db, ty) {
                ChalkTypeShape::Expanded(expanded) => {
                    let next = rest + at_depth(seq![expanded], depth + 1);
                    proof {
                        lemma_work_left_decreases(pending, seq![expanded]);
                    }
                    split_pending(db, next, found)
                },
                ChalkTypeShape::Union(elements) => {
                    let next = rest + at_depth(elements@, depth + 1);
                    if found.len() + rest.len() + elements@.len() > MAX_CALL_ALTERNATIVES {
                        None
                    } else {
                        proof {
                            lemma_work_left_decreases(pending, elements@);
                        }
                        split_pending(db, next, found)
                    }
                },
                _ => {
                    proof {
                        lemma_work_left_decreases(pending, Seq::empty());
                    }
                    split_pending(db, rest, found.push(ty))
                },
            }
        }
    }
}

/// The alternatives of an argument's type.
pub open spec fn actual_alternatives(db: Db, actual: Actual) -> Option<Seq<Actual>> {
    match actual {
        Actual::Module { .. } => Some(seq![actual]),
        Actual::Native(ty) => match split_pending(db, at_depth(seq![ty], 0), Seq::empty()) {
            Some(types) => Some(Seq::new(types.len(), |i: int| Actual::Native(types[i]))),
            None => None,
        },
    }
}

/// The type of an argument.
pub open spec fn argument_type(argument: Argument) -> Actual {
    match argument {
        Argument::Positional(ty) => ty,
        Argument::Keyword { ty, .. } => ty,
    }
}

/// The same argument with another type.
pub open spec fn retyped(argument: Argument, ty: Actual) -> Argument {
    match argument {
        Argument::Positional(_) => Argument::Positional(ty),
        Argument::Keyword { name, .. } => Argument::Keyword { name, ty },
    }
}

/// Every combination followed by the argument with every type, in order.
pub open spec fn combine(
    combinations: Seq<Seq<Argument>>,
    argument: Argument,
    types: Seq<Actual>,
) -> Seq<Seq<Argument>>
    decreases combinations.len(),
{
    if combinations.len() == 0 {
        Seq::empty()
    } else {
        combine(combinations.drop_last(), argument, types) + Seq::new(
            types.len(),
            |i: int| combinations.last().push(retyped(argument, types[i])),
        )
    }
}

/// The combinations of the alternatives of all arguments; nothing where there are too many.
pub open spec fn combinations(db: Db, arguments: Seq<Argument>) -> Option<Seq<Seq<Argument>>>
    decreases arguments.len(),
{
    if arguments.len() == 0 {
        Some(seq![Seq::empty()])
    } else {
        match combinations(db, arguments.drop_last()) {
            None => None,
            Some(before) => match actual_alternatives(db, argument_type(arguments.last())) {
                None => None,
                Some(types) => if before.len() * types.len() > MAX_CALL_ALTERNATIVES {
                    None
                } else {
                    Some(combine(before, arguments.last(), types))
                },
            },
        }
    }
}

/// The match of a call against several signatures: every combination of argument types has to
/// match one of them.
pub open spec fn signatures_match(
    db: Db,
    signatures: Seq<SupportedSignature>,
    arguments: Seq<Argument>,
) -> TypeMatch {
    match combinations(db, arguments) {
        None => TypeMatch::Inconclusive,
        Some(all) => TypeMatch::all_of(
            Seq::new(all.len(), |i: int| overload_match(db, signatures, all[i])),
        ),
    }
}

// ---------------------------------------------------------------------------------------------
// Protocols
// ---------------------------------------------------------------------------------------------

/// A builtin that calls a method of its first argument.
#[derive(Clone, Copy, Debug, PartialEq, Eq, Structural)]
pub enum ProtocolOperation {
    Bool,
    Len,
}

impl ProtocolOperation {
    /// The builtin's name.
    pub open spec fn builtin_name(self) -> Seq<char> {
        match self {
            ProtocolOperation::Bool => "bool"@,
            ProtocolOperation::Len => "len"@,
        }
    }

    /// The method's name.
    pub open spec fn method_name(self) -> Seq<char> {
        match self {
            ProtocolOperation::Bool => "__bool__"@,
            ProtocolOperation::Len => "__len__"@,
        }
    }

    fn builtin(self) -> (name: &'static str)
        ensures
            name@ == self.builtin_name(),
    {
        match self {
            ProtocolOperation::Bool => "bool",
            ProtocolOperation::Len => "len",
        }
    }

    fn method(self) -> (name: &'static str)
        ensures
            name@ == self.method_name(),
    {
        match self {
            ProtocolOperation::Bool => "__bool__",
            ProtocolOperation::Len => "__len__",
        }
    }
}

/// The protocol behind a builtin, if there is one.
pub open spec fn protocol_of(name: Seq<char>) -> Option<ProtocolOperation> {
    if name == "bool"@ {
        Some(ProtocolOperation::Bool)
    } else if name == "len"@ {
        Some(ProtocolOperation::Len)
    } else {
        None
    }
}

/// The protocol behind a builtin, if there is one.
pub fn protocol_operation(name: &str) -> (protocol: Option<ProtocolOperation>)
    ensures
        protocol == protocol_of(name@),
{
    if text::same_text(name, "bool") {
        Some(ProtocolOperation::Bool)
    } else if text::same_text(name, "len") {
        Some(ProtocolOperation::Len)
    } else {
        None
    }
}

/// The bound values from a place on, as positional arguments.
pub open spec fn bound_arguments(bound: Seq<Option<Actual>>) -> Seq<Argument>
    decreases bound.len(),
{
    if bound.len() == 0 {
        Seq::empty()
    } else {
        let before = bound_arguments(bound.drop_last());
        match bound.last() {
            Some(actual) => before.push(Argument::Positional(actual)),
            None => before,
        }
    }
}

/// The match of a protocol call against one signature of the builtin: the builtin takes the call,
/// and its first argument has the method for the rest.
pub open spec fn protocol_signature_match(
    db: Db,
    builtin: SupportedSignature,
    methods: Seq<SupportedSignature>,
    arguments: Seq<Argument>,
) -> TypeMatch {
    match bind(builtin, arguments) {
        None => TypeMatch::NoMatch,
        Some(bound) => if bound.len() == 0 || bound[0] is None {
            TypeMatch::NoMatch
        } else {
            bound_match(db, builtin, bound).both(
                signatures_match(db, methods, bound_arguments(bound)),
            )
        },
    }
}

/// The match of a protocol call.
pub open spec fn protocol_match(
    db: Db,
    builtins: Seq<SupportedSignature>,
    methods: Seq<SupportedSignature>,
    arguments: Seq<Argument>,
) -> TypeMatch {
    TypeMatch::any_of(
        Seq::new(
            builtins.len(),
            |i: int| protocol_signature_match(db, builtins[i], methods, arguments),
        ),
    )
}

// ---------------------------------------------------------------------------------------------
// Classification
// ---------------------------------------------------------------------------------------------

/// What becomes of a call: it is supported as it is, it has no registry entry, it is matched
/// against the registry, or it is left open.
pub enum Classified {
    Blanket(Target),
    Missing(Target),
    Registry { target: Target, arguments: Seq<Argument>, protocol: Option<ProtocolOperation> },
    Deferred,
}

/// The registry is only consulted for the standard library and installed packages.
pub open spec fn is_registered_origin(origin: ModuleOrigin) -> bool {
    origin == ModuleOrigin::StandardLibrary || origin == ModuleOrigin::ThirdParty
}

/// A call of a known operation.
pub open spec fn classified_known(
    known: KnownCallTarget,
    arguments: Seq<Argument>,
    receiver: Option<Type>,
) -> Classified {
    match receiver {
        None => Classified::Deferred,
        Some(receiver) => Classified::Registry {
            target: Target {
                identity: Identity::Known(known),
                kind: CallKind::Method,
                name: "startswith"@,
                label: "str.startswith"@,
                range: None,
                receiver: Some(0),
            },
            arguments: seq![Argument::Positional(Actual::Native(receiver))] + arguments,
            protocol: None,
        },
    }
}

/// A call that leads to a module's symbol.
pub open spec fn classified_module(
    provenance: ModuleSymbol,
    arguments: Seq<Argument>,
    receiver: Option<Type>,
) -> Classified {
    let module = provenance.module;
    let symbol = provenance.symbol;
    let owner = provenance.owner;
    let target = Target {
        identity: Identity::ModuleSymbol { module, symbol },
        kind: CallKind::Method,
        name: symbol,
        label: module + "."@ + symbol,
        range: None,
        receiver: provenance.receiver,
    };
    if !is_registered_origin(owner) {
        Classified::Deferred
    } else if owner == ModuleOrigin::ThirdParty && provenance::in_chalk_namespace(module) {
        Classified::Blanket(target)
    } else if module == "builtins"@ {
        Classified::Registry {
            target: Target { kind: CallKind::Builtin, ..target },
            arguments,
            protocol: protocol_of(symbol),
        }
    } else {
        let method = Target { receiver: Some(0), ..target };
        match (provenance.receiver, receiver) {
            (Some(_), None) => Classified::Deferred,
            (Some(_), Some(receiver)) => Classified::Registry {
                target: method,
                arguments: seq![Argument::Positional(Actual::Native(receiver))] + arguments,
                protocol: None,
            },
            (None, _) => Classified::Registry {
                target: method,
                arguments: seq![
                    Argument::Positional(Actual::Module { name: module, origin: owner }),
                ] + arguments,
                protocol: None,
            },
        }
    }
}

/// How a definition is shown.
pub open spec fn definition_label(module: Seq<char>, qualified: Seq<char>) -> Seq<char> {
    if module.len() == 0 {
        qualified
    } else {
        module + "."@ + qualified
    }
}

/// A call that leads to a definition.
pub open spec fn classified_resolved(
    db: Db,
    definition: Definition,
    arguments: Seq<Argument>,
    receiver: Option<Type>,
) -> Classified {
    match provenance::definition_kind(db, definition) {
        None => Classified::Deferred,
        Some(kind) => {
            let data = db.definition(definition);
            let module = provenance::file_module_name(db, data.file);
            let owner = provenance::file_owner(db, data.file);
            let is_builtins = owner == ModuleOrigin::StandardLibrary && module == "builtins"@;
            let target = Target {
                identity: Identity::Definition(definition),
                kind: CallKind::Method,
                name: data.name@,
                label: definition_label(
                    module,
                    provenance::qualified_symbol(data.scopes@, data.name@),
                ),
                range: Some(FileRange { file: data.file, range: data.focus }),
                receiver: None,
            };
            let builtin = Target { kind: CallKind::Builtin, ..target };
            let method = Target { receiver: Some(0), ..target };
            if owner == ModuleOrigin::ThirdParty && provenance::in_chalk_namespace(module) {
                if kind == CallDefinitionOriginKind::Method && receiver is Some {
                    Classified::Blanket(method)
                } else {
                    Classified::Blanket(target)
                }
            } else if kind == CallDefinitionOriginKind::ClassConstructor {
                if is_builtins {
                    Classified::Registry {
                        target: builtin,
                        arguments,
                        protocol: protocol_of(data.name@),
                    }
                } else {
                    Classified::Deferred
                }
            } else if kind == CallDefinitionOriginKind::NestedFunction {
                Classified::Deferred
            } else if kind == CallDefinitionOriginKind::Method && receiver is None {
                Classified::Deferred
            } else if kind == CallDefinitionOriginKind::TopLevelFunction && is_builtins {
                Classified::Registry {
                    target: builtin,
                    arguments,
                    protocol: protocol_of(data.name@),
                }
            } else if owner == ModuleOrigin::FirstParty || owner == ModuleOrigin::Extra || owner
                == ModuleOrigin::Other {
                Classified::Missing(method)
            } else if !is_registered_origin(owner) {
                Classified::Deferred
            } else {
                match receiver {
                    Some(receiver) => Classified::Registry {
                        target: method,
                        arguments: seq![Argument::Positional(Actual::Native(receiver))] + arguments,
                        protocol: None,
                    },
                    None => Classified::Registry {
                        target: method,
                        arguments: seq![
                            Argument::Positional(Actual::Module { name: module, origin: owner }),
                        ] + arguments,
                        protocol: None,
                    },
                }
            }
        },
    }
}

/// One thing that a call may lead to.
pub enum Lead {
    Definition(Definition),
    Known(KnownCallTarget),
    Module(ModuleSymbol),
    Deferred,
}

/// What an observed target leads to.
pub open spec fn lead_of(target: ObservedCallTarget<'_>) -> Lead {
    match target {
        ObservedCallTarget::Resolved(target) => Lead::Definition(target.definition),
        ObservedCallTarget::Known(known) => Lead::Known(known),
        ObservedCallTarget::ModuleProvenance(provenance) => Lead::Module(provenance.symbol_view()),
        ObservedCallTarget::Deferred => Lead::Deferred,
    }
}

/// What becomes of a call.
pub open spec fn classified(
    db: Db,
    lead: Lead,
    arguments: Seq<Argument>,
    receiver: Option<Type>,
) -> Classified {
    match lead {
        Lead::Deferred => Classified::Deferred,
        Lead::Known(known) => classified_known(known, arguments, receiver),
        Lead::Module(symbol) => classified_module(symbol, arguments, receiver),
        Lead::Definition(definition) => classified_resolved(db, definition, arguments, receiver),
    }
}

/// What a match of types means for a call.
pub open spec fn outcome_of(result: TypeMatch, target: Target) -> Outcome {
    match result {
        TypeMatch::Match => Outcome::Match(target),
        TypeMatch::NoMatch => Outcome::NoMatch {
            target,
            reason: CallNoMatchReason::SignatureMismatch,
        },
        TypeMatch::Inconclusive => Outcome::Inconclusive,
    }
}

/// The result of matching a call against a registry.
#[verifier::opaque]
pub open spec fn outcome(
    db: Db,
    supported: SupportedFuncs,
    lead: Lead,
    arguments: Seq<Argument>,
    receiver: Option<Type>,
) -> Outcome {
    match classified(db, lead, arguments, receiver) {
        Classified::Blanket(target) => Outcome::Match(target),
        Classified::Missing(target) => Outcome::NoMatch {
            target,
            reason: CallNoMatchReason::MissingRegistryEntry,
        },
        Classified::Deferred => Outcome::Inconclusive,
        Classified::Registry { target, arguments, protocol } => {
            let missing = Outcome::NoMatch {
                target,
                reason: CallNoMatchReason::MissingRegistryEntry,
            };
            match protocol {
                Some(protocol) => {
                    let builtin = CallKey { kind: CallKind::Builtin, name: protocol.builtin_name() };
                    let method = CallKey { kind: CallKind::Method, name: protocol.method_name() };
                    if supported.has(builtin) && supported.has(method) {
                        outcome_of(
                            protocol_match(
                                db,
                                supported.at(builtin),
                                supported.at(method),
                                arguments,
                            ),
                            target,
                        )
                    } else {
                        missing
                    }
                },
                None => {
                    let key = CallKey { kind: target.kind, name: target.name };
                    if supported.has(key) {
                        outcome_of(signatures_match(db, supported.at(key), arguments), target)
                    } else {
                        missing
                    }
                },
            }
        },
    }
}

/// The result of matching an observed call against a registry.
pub open spec fn call_outcome(db: Db, supported: SupportedFuncs, call: ObservedCall<'_>) -> Outcome {
    outcome(db, supported, lead_of(call.target), observed_all(call.arguments@), call.receiver)
}

// ---------------------------------------------------------------------------------------------
// Matching
// ---------------------------------------------------------------------------------------------

/// Whether a type belongs to a database, where there is one.
pub open spec fn holds_receiver(db: Db, receiver: Option<Type>) -> bool {
    match receiver {
        Some(ty) => db.has_type(ty),
        None => true,
    }
}

/// Whether the types of observed arguments belong to a database.
pub open spec fn holds_arguments(db: Db, arguments: Seq<ObservedArgument<'_>>) -> bool {
    forall|i: int|
        0 <= i < arguments.len() ==> match #[trigger] arguments[i] {
            ObservedArgument::Positional(ty) => db.has_type(ty),
            ObservedArgument::Keyword { ty, .. } => db.has_type(ty),
        }
}

/// Whether what a call holds belongs to a database.
pub open spec fn holds_call(db: Db, call: ObservedCall<'_>) -> bool {
    &&& holds_receiver(db, call.receiver)
    &&& holds_arguments(db, call.arguments@)
    &&& (call.target matches ObservedCallTarget::Resolved(target) ==> db.has_definition(
        target.definition,
    ))
}

#[derive(Clone, Copy)]
enum ActualType<'a> {
    Native(Type),
    SyntheticModule { name: &'a str, origin: ModuleOrigin },
}

#[derive(Clone, Copy)]
enum ActualArgument<'a> {
    Positional(ActualType<'a>),
    Keyword { name: &'a str, ty: ActualType<'a> },
}

impl<'a> View for ActualType<'a> {
    type V = Actual;

    closed spec fn view(&self) -> Actual {
        match self {
            ActualType::Native(ty) => Actual::Native(*ty),
            ActualType::SyntheticModule { name, origin } => Actual::Module {
                name: name@,
                origin: *origin,
            },
        }
    }
}

impl<'a> View for ActualArgument<'a> {
    type V = Argument;

    closed spec fn view(&self) -> Argument {
        match self {
            ActualArgument::Positional(ty) => Argument::Positional(ty@),
            ActualArgument::Keyword { name, ty } => Argument::Keyword { name: name@, ty: ty@ },
        }
    }
}

spec fn holds_actual(db: Db, actual: Actual) -> bool {
    actual matches Actual::Native(ty) ==> db.has_type(ty)
}

spec fn actuals(types: Seq<ActualType<'_>>) -> Seq<Actual> {
    Seq::new(types.len(), |i: int| types[i]@)
}

spec fn bound_actuals(bound: Seq<Option<ActualType<'_>>>) -> Seq<Option<Actual>> {
    Seq::new(
        bound.len(),
        |i: int|
            match bound[i] {
                Some(ty) => Some(ty@),
                None => None,
            },
    )
}

spec fn given(arguments: Seq<ActualArgument<'_>>) -> Seq<Argument> {
    Seq::new(arguments.len(), |i: int| arguments[i]@)
}

spec fn given_all(combinations: Seq<Vec<ActualArgument<'_>>>) -> Seq<Seq<Argument>> {
    Seq::new(combinations.len(), |i: int| given(combinations[i]@))
}

spec fn holds_given(db: Db, arguments: Seq<ActualArgument<'_>>) -> bool {
    forall|i: int|
        0 <= i < arguments.len() ==> holds_actual(db, argument_type(#[trigger] arguments[i]@))
}

spec fn holds_bound(db: Db, bound: Seq<Option<ActualType<'_>>>) -> bool {
    forall|i: int|
        0 <= i < bound.len() ==> (#[trigger] bound[i] matches Some(ty) ==> holds_actual(db, ty@))
}

/// Appends the arguments of a call.
fn extend_arguments<'a>(
    db: &Db,
    arguments: &mut Vec<ActualArgument<'a>>,
    call: &ObservedCall<'a>,
)
    requires
        holds_arguments(*db, call.arguments@),
        holds_given(*db, old(arguments)@),
    ensures
        given(final(arguments)@) == given(old(arguments)@) + observed_all(call.arguments@),
        holds_given(*db, final(arguments)@),
{
    let ghost before = given(arguments@);
    let mut i: usize = 0;
    while i < call.arguments.len()
        invariant
            i <= call.arguments@.len(),
            given(arguments@) =~= before + observed_all(call.arguments@).take(i as int),
            holds_arguments(*db, call.arguments@),
            holds_given(*db, arguments@),
        decreases call.arguments@.len() - i,
    {
        let ghost so_far = arguments@;
        let argument = match call.arguments[i] {
            ObservedArgument::Positional(ty) => ActualArgument::Positional(ActualType::Native(ty)),
            ObservedArgument::Keyword { name, ty } => ActualArgument::Keyword {
                name,
                ty: ActualType::Native(ty),
            },
        };
        arguments.push(argument);
        assert(given(arguments@) =~= given(so_far).push(argument@));
        assert(argument@ == observed(call.arguments@[i as int]));
        i += 1;
    }
    assert(observed_all(call.arguments@).take(call.arguments@.len() as int) =~= observed_all(
        call.arguments@,
    ));
}

/// The arguments of a call, behind its receiver.
fn method_arguments<'a>(db: &Db, receiver: ActualType<'a>, call: &ObservedCall<'a>) -> (arguments:
    Vec<ActualArgument<'a>>)
    requires
        holds_arguments(*db, call.arguments@),
        holds_actual(*db, receiver@),
    ensures
        given(arguments@) == seq![Argument::Positional(receiver@)] + observed_all(call.arguments@),
        holds_given(*db, arguments@),
{
    let mut arguments: Vec<ActualArgument<'a>> = Vec::new();
    arguments.push(ActualArgument::Positional(receiver));
    assert(given(arguments@) =~= seq![Argument::Positional(receiver@)]);
    extend_arguments(db, &mut arguments, call);
    arguments
}

/// The arguments of a call.
fn plain_arguments<'a>(db: &Db, call: &ObservedCall<'a>) -> (arguments: Vec<ActualArgument<'a>>)
    requires
        holds_arguments(*db, call.arguments@),
    ensures
        given(arguments@) == observed_all(call.arguments@),
        holds_given(*db, arguments@),
{
    let mut arguments: Vec<ActualArgument<'a>> = Vec::new();
    assert(given(arguments@) =~= Seq::empty());
    extend_arguments(db, &mut arguments, call);
    assert(given(arguments@) =~= observed_all(call.arguments@));
    arguments
}

enum ClassifiedCall<'a> {
    Blanket(CallMatchTarget),
    MissingRegistryEntry(CallMatchTarget),
    Registry {
        target: CallMatchTarget,
        arguments: Vec<ActualArgument<'a>>,
        protocol: Option<ProtocolOperation>,
    },
    Deferred,
}

impl<'a> View for ClassifiedCall<'a> {
    type V = Classified;

    closed spec fn view(&self) -> Classified {
        match self {
            ClassifiedCall::Blanket(target) => Classified::Blanket(target@),
            ClassifiedCall::MissingRegistryEntry(target) => Classified::Missing(target@),
            ClassifiedCall::Registry { target, arguments, protocol } => Classified::Registry {
                target: target@,
                arguments: given(arguments@),
                protocol: *protocol,
            },
            ClassifiedCall::Deferred => Classified::Deferred,
        }
    }
}

spec fn holds_classified(db: Db, classified: ClassifiedCall<'_>) -> bool {
    classified matches ClassifiedCall::Registry { arguments, .. } ==> holds_given(db, arguments@)
}

/// The first parameter with a name.
fn parameter_named(parameters: &Vec<SupportedArg>, name: &str) -> (index: Option<usize>)
    ensures
        match index {
            Some(index) => index < parameters@.len() && named_parameter(parameters@, name@, 0)
                == Some(index as int),
            None => named_parameter(parameters@, name@, 0) is None,
        },
{
    let mut i: usize = 0;
    while i < parameters.len()
        invariant
            i <= parameters@.len(),
            named_parameter(parameters@, name@, 0) == named_parameter(parameters@, name@, i as int),
        decreases parameters@.len() - i,
    {
        if let Some(label) = parameters[i].argument_name() {
            if text::same_text(label, name) {
                return Some(i);
            }
        }
        i += 1;
    }
    None
}

proof fn lemma_bind_all_none(parameters: Seq<SupportedArg>, arguments: Seq<Argument>, at: int)
    requires
        0 <= at <= arguments.len(),
        bind_all(parameters, arguments.take(at)) is None,
    ensures
        bind_all(parameters, arguments) is None,
    decreases arguments.len() - at,
{
    if at < arguments.len() {
        assert(arguments.take(at + 1).drop_last() =~= arguments.take(at));
        lemma_bind_all_none(parameters, arguments, at + 1);
    } else {
        assert(arguments.take(at) =~= arguments);
    }
}

/// Binds the arguments of a call to the parameters of a signature.
fn bind_signature<'a>(
    db: &Db,
    signature: &SupportedSignature,
    arguments: &Vec<ActualArgument<'a>>,
) -> (bound: Option<Vec<Option<ActualType<'a>>>>)
    requires
        holds_given(*db, arguments@),
    ensures
        match bound {
            Some(bound) => bind(*signature, given(arguments@)) == Some(bound_actuals(bound@))
                && bound@.len() == signature.args@.len() && holds_bound(*db, bound@),
            None => bind(*signature, given(arguments@)) is None,
        },
{
    let parameters = signature.args();
    let ghost views = given(arguments@);
    let mut bound: Vec<Option<ActualType<'a>>> = Vec::new();
    let mut filled: usize = 0;
    while filled < parameters.len()
        invariant
            filled <= parameters@.len(),
            bound@.len() == filled,
            forall|i: int| 0 <= i < bound@.len() ==> #[trigger] bound@[i] is None,
        decreases parameters@.len() - filled,
    {
        bound.push(None);
        filled += 1;
    }
    let mut next_positional: usize = 0;
    let mut saw_keyword = false;
    let mut at: usize = 0;
    assert(bind_all(parameters@, views.take(0)) == Some(
        Binding { bound: bound_actuals(bound@), next: 0, saw_keyword: false },
    )) by {
        assert(bound_actuals(bound@) =~= Seq::new(parameters@.len(), |i: int| None::<Actual>));
    }
    while at < arguments.len()
        invariant
            at <= arguments@.len(),
            views == given(arguments@),
            parameters@ == signature.args@,
            bound@.len() == parameters@.len(),
            next_positional <= parameters@.len(),
            bind_all(parameters@, views.take(at as int)) == Some(
                Binding {
                    bound: bound_actuals(bound@),
                    next: next_positional as int,
                    saw_keyword,
                },
            ),
            holds_given(*db, arguments@),
            holds_bound(*db, bound@),
        decreases arguments@.len() - at,
    {
        let ghost next = views.take(at as int + 1);
        let ghost so_far = bound@;
        proof {
            assert(next.drop_last() =~= views.take(at as int));
            assert(next.last() == arguments@[at as int]@);
        }
        match arguments[at] {
            ActualArgument::Positional(ty) => {
                if saw_keyword || next_positional == parameters.len() {
                    proof {
                        lemma_bind_all_none(parameters@, views, at as int + 1);
                    }
                    return None;
                }
                bound.set(next_positional, Some(ty));
                assert(bound_actuals(bound@) =~= bound_actuals(so_far).update(
                    next_positional as int,
                    Some(ty@),
                ));
                next_positional += 1;
            },
            ActualArgument::Keyword { name, ty } => {
                saw_keyword = true;
                match parameter_named(parameters, name) {
                    None => {
                        proof {
                            lemma_bind_all_none(parameters@, views, at as int + 1);
                        }
                        return None;
                    },
                    Some(index) => {
                        if bound[index].is_some() {
                            proof {
                                lemma_bind_all_none(parameters@, views, at as int + 1);
                            }
                            return None;
                        }
                        bound.set(index, Some(ty));
                        assert(bound_actuals(bound@) =~= bound_actuals(so_far).update(
                            index as int,
                            Some(ty@),
                        ));
                    },
                }
            },
        }
        at += 1;
    }
    assert(views.take(views.len() as int) =~= views);
    let mut checked: usize = 0;
    while checked < parameters.len()
        invariant
            checked <= parameters@.len(),
            parameters@ == signature.args@,
            bound@.len() == parameters@.len(),
            bind_all(parameters@, views) == Some(
                Binding {
                    bound: bound_actuals(bound@),
                    next: next_positional as int,
                    saw_keyword,
                },
            ),
            forall|i: int|
                0 <= i < checked ==> (#[trigger] parameters@[i]).has_default || bound_actuals(
                    bound@,
                )[i] is Some,
            views == given(arguments@),
        decreases parameters@.len() - checked,
    {
        if !parameters[checked].has_default() && bound[checked].is_none() {
            assert(!parameters@[checked as int].has_default && bound_actuals(
                bound@,
            )[checked as int] is None);
            return None;
        }
        checked += 1;
    }
    Some(bound)
}

struct Matcher<'a> {
    db: &'a Db,
    supported: &'a SupportedFuncs,
}

impl<'m> Matcher<'m> {
    spec fn wf(self) -> bool {
        self.db.wf() && self.supported.wf()
    }

    fn match_actual(&self, actual: ActualType<'_>, expected: &SupportedTy) -> (result: TypeMatch)
        requires
            self.wf(),
            holds_actual(*self.db, actual@),
        ensures
            result == actual_match(*self.db, actual@, *expected),
    {
        if let SupportedTy::Module { name, .. } = expected {
            return match actual {
                ActualType::SyntheticModule { name: module, origin } => {
                    if !text::same_text(name, module) {
                        TypeMatch::NoMatch
                    } else {
                        match origin {
                            ModuleOrigin::StandardLibrary | ModuleOrigin::ThirdParty => {
                                TypeMatch::Match
                            },
                            ModuleOrigin::FirstParty
                            | ModuleOrigin::Extra
                            | ModuleOrigin::Other => TypeMatch::NoMatch,
                            ModuleOrigin::Namespace | ModuleOrigin::Unresolved => {
                                TypeMatch::Inconclusive
                            },
                        }
                    }
                },
                ActualType::Native(ty) => {
                    match chalk::chalk_receiver_module_relation(self.db, ty, name) {
                        ChalkClassRelation::Match => TypeMatch::Match,
                        ChalkClassRelation::NoMatch => TypeMatch::NoMatch,
                        ChalkClassRelation::Unavailable => TypeMatch::Inconclusive,
                    }
                },
            };
        }
        match actual {
            ActualType::SyntheticModule { .. } => TypeMatch::NoMatch,
            ActualType::Native(ty) => type_matcher::match_supported_type(self.db, ty, expected),
        }
    }

    fn match_bound(&self, signature: &SupportedSignature, bound: &Vec<Option<ActualType<'_>>>) -> (
    result: TypeMatch)
        requires
            self.wf(),
            holds_bound(*self.db, bound@),
            bound@.len() == signature.args@.len(),
        ensures
            result == bound_match(*self.db, *signature, bound_actuals(bound@)),
    {
        let parameters = signature.args();
        let ghost views = bound_actuals(bound@);
        let mut results: Vec<TypeMatch> = Vec::new();
        let mut i: usize = 0;
        while i < parameters.len()
            invariant
                self.wf(),
                i <= parameters@.len(),
                parameters@.len() == bound@.len(),
                parameters@ == signature.args@,
                views == bound_actuals(bound@),
                holds_bound(*self.db, bound@),
                results@ == bound_matches(
                    *self.db,
                    parameters@.take(i as int),
                    views.take(i as int),
                ),
            decreases parameters@.len() - i,
        {
            assert(parameters@.take(i as int + 1).drop_last() =~= parameters@.take(i as int));
            assert(views.take(i as int + 1).drop_last() =~= views.take(i as int));
            if let Some(actual) = bound[i] {
                let result = self.match_actual(actual, parameters[i].ty());
                results.push(result);
            }
            i += 1;
        }
        assert(parameters@.take(parameters@.len() as int) =~= parameters@);
        assert(views.take(views.len() as int) =~= views);
        TypeMatch::all_results(&results)
    }

    fn match_signature(&self, signature: &SupportedSignature, arguments: &Vec<ActualArgument<'_>>) -> (
    result: TypeMatch)
        requires
            self.wf(),
            holds_given(*self.db, arguments@),
        ensures
            result == signature_match(*self.db, *signature, given(arguments@)),
    {
        match bind_signature(self.db, signature, arguments) {
            None => TypeMatch::NoMatch,
            Some(bound) => self.match_bound(signature, &bound),
        }
    }

    fn match_overloads(
        &self,
        signatures: &Vec<SupportedSignature>,
        arguments: &Vec<ActualArgument<'_>>,
    ) -> (result: TypeMatch)
        requires
            self.wf(),
            holds_given(*self.db, arguments@),
        ensures
            result == overload_match(*self.db, signatures@, given(arguments@)),
    {
        let mut results: Vec<TypeMatch> = Vec::new();
        let mut i: usize = 0;
        while i < signatures.len()
            invariant
                self.wf(),
                i <= signatures@.len(),
                holds_given(*self.db, arguments@),
                results@ =~= Seq::new(
                    i as nat,
                    |k: int| signature_match(*self.db, signatures@[k], given(arguments@)),
                ),
            decreases signatures@.len() - i,
        {
            results.push(self.match_signature(&signatures[i], arguments));
            i += 1;
        }
        TypeMatch::any_results(&results)
    }

    /// The alternatives of an argument's type.
    fn actual_type_alternatives<'a>(&self, actual: ActualType<'a>) -> (alternatives: Option<
        Vec<ActualType<'a>>,
    >)
        requires
            self.wf(),
            holds_actual(*self.db, actual@),
        ensures
            match alternatives {
                Some(types) => actual_alternatives(*self.db, actual@) == Some(actuals(types@))
                    && forall|i: int|
                    0 <= i < types@.len() ==> holds_actual(*self.db, #[trigger] types@[i]@),
                None => actual_alternatives(*self.db, actual@) is None,
            },
    {
        let mut alternatives: Vec<ActualType<'a>> = Vec::new();
        let first = match actual {
            ActualType::Native(ty) => ty,
            _ => {
                alternatives.push(actual);
                assert(actuals(alternatives@) =~= seq![actual@]);
                return Some(alternatives);
            },
        };
        let db = self.db;
        let mut pending: Vec<(Type, usize)> = Vec::new();
        pending.push((first, 0));
        let ghost goal = split_pending(*db, at_depth(seq![first], 0), Seq::empty());
        let ghost mut found: Seq<Type> = Seq::empty();
        assert(depths(pending@) =~= at_depth(seq![first], 0));
        while pending.len() > 0
            invariant
                self.wf(),
                db == self.db,
                actual@ == Actual::Native(first),
                goal == split_pending(*db, at_depth(seq![first], 0), Seq::empty()),
                forall|i: int| 0 <= i < pending@.len() ==> db.has_type((#[trigger] pending@[i]).0),
                forall|i: int| 0 <= i < found.len() ==> db.has_type(#[trigger] found[i]),
                found.len() == alternatives@.len(),
                forall|i: int|
                    0 <= i < found.len() ==> (#[trigger] alternatives@[i])@ == Actual::Native(
                        found[i],
                    ),
                alternatives@.len() + pending@.len() <= MAX_CALL_ALTERNATIVES,
                goal == split_pending(*db, depths(pending@), found),
            decreases work_left(depths(pending@)),
        {
            let ghost before = depths(pending@);
            let popped: Option<(Type, usize)> = pending.pop();
            let (ty, depth): (Type, usize) = match popped {
                Some(item) => item,
                None => (first, MAX_CALL_ALTERNATIVES),
            };
            proof {
                assert(before.last() == (ty, depth as nat));
                assert(depths(pending@) =~= before.drop_last());
            }
            if depth >= MAX_CALL_ALTERNATIVES {
                return None;
            }
            match chalk::chalk_type_shape(db, ty) {
                ChalkTypeShape::Expanded(expanded) => {
                    proof {
                        lemma_work_left_decreases(before, seq![expanded]);
                    }
                    pending.push((expanded, depth + 1));
                    assert(depths(pending@) =~= before.drop_last() + at_depth(
                        seq![expanded],
                        depth as nat + 1,
                    ));
                },
                ChalkTypeShape::Union(elements) => {
                    if elements.len() > MAX_CALL_ALTERNATIVES - pending.len() - alternatives.len() {
                        return None;
                    }
                    proof {
                        lemma_work_left_decreases(before, elements@);
                    }
                    let mut i: usize = 0;
                    while i < elements.len()
                        invariant
                            i <= elements@.len(),
                            depth < MAX_CALL_ALTERNATIVES,
                            before.len() > 0,
                            depths(pending@) =~= before.drop_last() + at_depth(
                                elements@,
                                depth as nat + 1,
                            ).take(i as int),
                            pending@.len() == before.len() - 1 + i,
                            forall|k: int|
                                0 <= k < elements@.len() ==> db.has_type(#[trigger] elements@[k]),
                            forall|k: int|
                                0 <= k < pending@.len() ==> db.has_type((#[trigger] pending@[k]).0),
                        decreases elements@.len() - i,
                    {
                        let ghost so_far = pending@;
                        pending.push((elements[i], depth + 1));
                        assert(depths(pending@) =~= depths(so_far).push(
                            (elements@[i as int], depth as nat + 1),
                        ));
                        i += 1;
                    }
                    let ghost added = at_depth(elements@, depth as nat + 1);
                    assert(added.take(elements@.len() as int) =~= added);
                },
                _ => {
                    proof {
                        lemma_work_left_decreases(before, Seq::empty());
                        found = found.push(ty);
                    }
                    alternatives.push(ActualType::Native(ty));
                },
            }
        }
        assert(actuals(alternatives@) =~= Seq::new(found.len(), |i: int| Actual::Native(found[i])));
        Some(alternatives)
    }

    /// The combinations of the alternatives of all arguments.
    fn argument_alternatives<'a>(&self, arguments: &Vec<ActualArgument<'a>>) -> (found: Option<
        Vec<Vec<ActualArgument<'a>>>,
    >)
        requires
            self.wf(),
            holds_given(*self.db, arguments@),
        ensures
            match found {
                Some(found) => combinations(*self.db, given(arguments@)) == Some(given_all(found@))
                    && forall|i: int|
                    0 <= i < found@.len() ==> holds_given(*self.db, #[trigger] found@[i]@),
                None => combinations(*self.db, given(arguments@)) is None,
            },
    {
        let db = self.db;
        let ghost views = given(arguments@);
        let mut found: Vec<Vec<ActualArgument<'a>>> = Vec::new();
        found.push(Vec::new());
        assert(given_all(found@) =~= seq![Seq::<Argument>::empty()]) by {
            assert(given(found@[0]@) =~= Seq::empty());
        }
        assert(views.take(0) =~= Seq::empty());
        let mut at: usize = 0;
        while at < arguments.len()
            invariant
                self.wf(),
                db == self.db,
                at <= arguments@.len(),
                views == given(arguments@),
                holds_given(*db, arguments@),
                found@.len() <= MAX_CALL_ALTERNATIVES,
                combinations(*db, views.take(at as int)) == Some(given_all(found@)),
                forall|i: int| 0 <= i < found@.len() ==> holds_given(*db, #[trigger] found@[i]@),
            decreases arguments@.len() - at,
        {
            let ghost next = views.take(at as int + 1);
            let ghost last = arguments@[at as int]@;
            proof {
                assert(next.drop_last() =~= views.take(at as int));
                assert(next.last() == last);
            }
            let ty = match arguments[at] {
                ActualArgument::Positional(ty) => ty,
                ActualArgument::Keyword { ty, .. } => ty,
            };
            let types = match self.actual_type_alternatives(ty) {
                Some(types) => types,
                None => {
                    proof {
                        lemma_combinations_none(*db, views, at as int + 1);
                    }
                    return None;
                },
            };
            let fits = match found.len().checked_mul(types.len()) {
                Some(product) => product <= MAX_CALL_ALTERNATIVES,
                None => false,
            };
            if !fits {
                proof {
                    lemma_combinations_none(*db, views, at as int + 1);
                }
                return None;
            }
            let ghost groups = given_all(found@);
            let ghost kinds = actuals(types@);
            let mut expanded: Vec<Vec<ActualArgument<'a>>> = Vec::new();
            assert(given_all(expanded@) =~= combine(groups.take(0), last, kinds));
            let mut i: usize = 0;
            while i < found.len()
                invariant
                    at < arguments@.len(),
                    last == arguments@[at as int]@,
                    i <= found@.len(),
                    groups == given_all(found@),
                    kinds == actuals(types@),
                    given_all(expanded@) =~= combine(groups.take(i as int), last, kinds),
                    forall|k: int| 0 <= k < found@.len() ==> holds_given(*db, #[trigger] found@[k]@),
                    forall|k: int|
                        0 <= k < types@.len() ==> holds_actual(*db, #[trigger] types@[k]@),
                    forall|k: int|
                        0 <= k < expanded@.len() ==> holds_given(*db, #[trigger] expanded@[k]@),
                decreases found@.len() - i,
            {
                let ghost done = combine(groups.take(i as int), last, kinds);
                let ghost group = groups[i as int];
                let ghost row = Seq::new(
                    kinds.len(),
                    |k: int| group.push(retyped(last, kinds[k])),
                );
                let mut j: usize = 0;
                while j < types.len()
                    invariant
                        at < arguments@.len(),
                        last == arguments@[at as int]@,
                        i < found@.len(),
                        j <= types@.len(),
                        group == given(found@[i as int]@),
                        kinds == actuals(types@),
                        row == Seq::new(
                            kinds.len(),
                            |k: int| group.push(retyped(last, kinds[k])),
                        ),
                        given_all(expanded@) =~= done + row.take(j as int),
                        forall|k: int|
                            0 <= k < found@.len() ==> holds_given(*db, #[trigger] found@[k]@),
                        forall|k: int|
                            0 <= k < types@.len() ==> holds_actual(*db, #[trigger] types@[k]@),
                        forall|k: int|
                            0 <= k < expanded@.len() ==> holds_given(*db, #[trigger] expanded@[k]@),
                    decreases types@.len() - j,
                {
                    let ghost so_far = expanded@;
                    let mut combination = copied_arguments(&found[i]);
                    let ghost copied = combination@;
                    let argument = match arguments[at] {
                        ActualArgument::Positional(_) => ActualArgument::Positional(types[j]),
                        ActualArgument::Keyword { name, .. } => ActualArgument::Keyword {
                            name,
                            ty: types[j],
                        },
                    };
                    combination.push(argument);
                    proof {
                        assert(holds_given(*db, found@[i as int]@));
                        assert(holds_actual(*db, types@[j as int]@));
                        assert(argument@ == retyped(last, kinds[j as int]));
                        assert(given(combination@) =~= given(copied).push(argument@));
                        assert(holds_given(*db, combination@));
                    }
                    expanded.push(combination);
                    assert(given_all(expanded@) =~= given_all(so_far).push(row[j as int]));
                    j += 1;
                }
                assert(row.take(kinds.len() as int) =~= row);
                assert(groups.take(i as int + 1).drop_last() =~= groups.take(i as int));
                i += 1;
            }
            assert(groups.take(groups.len() as int) =~= groups);
            proof {
                lemma_combine_len(groups, last, kinds);
            }
            found = expanded;
            at += 1;
        }
        assert(views.take(views.len() as int) =~= views);
        Some(found)
    }

    fn match_signatures(
        &self,
        signatures: &Vec<SupportedSignature>,
        arguments: &Vec<ActualArgument<'_>>,
    ) -> (result: TypeMatch)
        requires
            self.wf(),
            holds_given(*self.db, arguments@),
        ensures
            result == signatures_match(*self.db, signatures@, given(arguments@)),
    {
        let alternatives = match self.argument_alternatives(arguments) {
            Some(alternatives) => alternatives,
            None => {
                return TypeMatch::Inconclusive;
            },
        };
        let ghost all = given_all(alternatives@);
        let mut results: Vec<TypeMatch> = Vec::new();
        let mut i: usize = 0;
        while i < alternatives.len()
            invariant
                self.wf(),
                i <= alternatives@.len(),
                all == given_all(alternatives@),
                forall|k: int|
                    0 <= k < alternatives@.len() ==> holds_given(
                        *self.db,
                        #[trigger] alternatives@[k]@,
                    ),
                results@ =~= Seq::new(
                    i as nat,
                    |k: int| overload_match(*self.db, signatures@, all[k]),
                ),
            decreases alternatives@.len() - i,
        {
            results.push(self.match_overloads(signatures, &alternatives[i]));
            i += 1;
        }
        TypeMatch::all_results(&results)
    }

    fn match_protocol_signature(
        &self,
        builtin: &SupportedSignature,
        methods: &Vec<SupportedSignature>,
        arguments: &Vec<ActualArgument<'_>>,
    ) -> (result: TypeMatch)
        requires
            self.wf(),
            holds_given(*self.db, arguments@),
        ensures
            result == protocol_signature_match(*self.db, *builtin, methods@, given(arguments@)),
    {
        let bound = match bind_signature(self.db, builtin, arguments) {
            Some(bound) => bound,
            None => {
                return TypeMatch::NoMatch;
            },
        };
        let builtin_match = self.match_bound(builtin, &bound);
        if bound.len() == 0 || bound[0].is_none() {
            return TypeMatch::NoMatch;
        }
        let ghost views = bound_actuals(bound@);
        let mut taken: Vec<ActualArgument<'_>> = Vec::new();
        assert(given(taken@) =~= bound_arguments(views.take(0)));
        let mut i: usize = 0;
        while i < bound.len()
            invariant
                i <= bound@.len(),
                views == bound_actuals(bound@),
                given(taken@) =~= bound_arguments(views.take(i as int)),
                holds_bound(*self.db, bound@),
                holds_given(*self.db, taken@),
            decreases bound@.len() - i,
        {
            let ghost so_far = taken@;
            assert(views.take(i as int + 1).drop_last() =~= views.take(i as int));
            if let Some(actual) = bound[i] {
                taken.push(ActualArgument::Positional(actual));
                assert(given(taken@) =~= given(so_far).push(Argument::Positional(actual@)));
            }
            i += 1;
        }
        assert(views.take(views.len() as int) =~= views);
        builtin_match.all(self.match_signatures(methods, &taken))
    }

    fn match_protocol(
        &self,
        builtins: &Vec<SupportedSignature>,
        methods: &Vec<SupportedSignature>,
        arguments: &Vec<ActualArgument<'_>>,
    ) -> (result: TypeMatch)
        requires
            self.wf(),
            holds_given(*self.db, arguments@),
        ensures
            result == protocol_match(*self.db, builtins@, methods@, given(arguments@)),
    {
        let mut results: Vec<TypeMatch> = Vec::new();
        let mut i: usize = 0;
        while i < builtins.len()
            invariant
                self.wf(),
                i <= builtins@.len(),
                holds_given(*self.db, arguments@),
                results@ =~= Seq::new(
                    i as nat,
                    |k: int|
                        protocol_signature_match(
                            *self.db,
                            builtins@[k],
                            methods@,
                            given(arguments@),
                        ),
                ),
            decreases builtins@.len() - i,
        {
            results.push(self.match_protocol_signature(&builtins[i], methods, arguments));
            i += 1;
        }
        TypeMatch::any_results(&results)
    }

    fn classify_known<'a>(&self, known: KnownCallTarget, call: &ObservedCall<'a>) -> (classified:
        ClassifiedCall<'a>)
        requires
            holds_call(*self.db, *call),
        ensures
            classified@ == classified_known(known, observed_all(call.arguments@), call.receiver),
            holds_classified(*self.db, classified),
    {
        match call.receiver {
            None => ClassifiedCall::Deferred,
            Some(receiver) => {
                let arguments = method_arguments(self.db, ActualType::Native(receiver), call);
                ClassifiedCall::Registry {
                    target: CallMatchTarget {
                        identity: CallMatchIdentity::Known(known),
                        kind: CallKind::Method,
                        name: "startswith".to_owned(),
                        display_label: "str.startswith".to_owned(),
                        definition_range: None,
                        receiver_parameter: Some(0),
                    },
                    arguments,
                    protocol: None,
                }
            },
        }
    }

    fn classify_module_provenance<'a>(
        &self,
        provenance: &'a CallModuleProvenance,
        call: &ObservedCall<'a>,
    ) -> (classified: ClassifiedCall<'a>)
        requires
            holds_call(*self.db, *call),
        ensures
            classified@ == classified_module(
                provenance.symbol_view(),
                observed_all(call.arguments@),
                call.receiver,
            ),
            holds_classified(*self.db, classified),
    {
        let owner = provenance.ownership_origin;
        if owner != ModuleOrigin::StandardLibrary && owner != ModuleOrigin::ThirdParty {
            return ClassifiedCall::Deferred;
        }
        let mut display_label = provenance.module.as_str().to_owned();
        text::push_text(&mut display_label, ".");
        text::push_text(&mut display_label, &provenance.symbol);
        let mut target = CallMatchTarget {
            identity: CallMatchIdentity::ModuleSymbol {
                module: provenance.module.as_str().to_owned(),
                symbol: provenance.symbol.as_str().to_owned(),
            },
            kind: CallKind::Method,
            name: provenance.symbol.as_str().to_owned(),
            display_label,
            definition_range: None,
            receiver_parameter: provenance.receiver_parameter,
        };
        if owner == ModuleOrigin::ThirdParty && provenance::is_chalk_namespace(&provenance.module) {
            return ClassifiedCall::Blanket(target);
        }
        if text::same_text(&provenance.module, "builtins") {
            target.kind = CallKind::Builtin;
            return ClassifiedCall::Registry {
                target,
                arguments: plain_arguments(self.db, call),
                protocol: protocol_operation(&provenance.symbol),
            };
        }
        target.receiver_parameter = Some(0);
        let receiver = match provenance.receiver_parameter {
            Some(_) => match call.receiver {
                Some(receiver) => ActualType::Native(receiver),
                None => {
                    return ClassifiedCall::Deferred;
                },
            },
            None => ActualType::SyntheticModule { name: &provenance.module, origin: owner },
        };
        ClassifiedCall::Registry {
            target,
            arguments: method_arguments(self.db, receiver, call),
            protocol: None,
        }
    }
}

impl<'m> Matcher<'m> {
    /// The name of the module that holds a definition.
    fn module_name(&self, definition: Definition) -> (name: &'m str)
        requires
            self.wf(),
            self.db.has_definition(definition),
        ensures
            name@ == provenance::file_module_name(*self.db, self.db.definition(definition).file),
    {
        let db = self.db;
        assert(db.definition_wf(db.definitions@[definition.id as int]));
        let file = db.definitions[definition.id].file;
        match db.files[file.id].module {
            Some(module) => db.modules[module.id].name.as_str(),
            None => {
                proof {
                    reveal_strlit("");
                }
                assert(""@ =~= Seq::<char>::empty());
                ""
            },
        }
    }

    fn classify_resolved<'a>(&self, target: CallTarget, call: &ObservedCall<'a>) -> (classified:
        ClassifiedCall<'a>)
        where 'm: 'a
        requires
            self.wf(),
            holds_call(*self.db, *call),
            self.db.has_definition(target.definition),
        ensures
            classified@ == classified_resolved(
                *self.db,
                target.definition,
                observed_all(call.arguments@),
                call.receiver,
            ),
            holds_classified(*self.db, classified),
    {
        let origin = match provenance::chalk_call_definition_origin(self.db, target.definition) {
            Some(origin) => origin,
            None => {
                return ClassifiedCall::Deferred;
            },
        };
        let identity = CallMatchIdentity::Definition(target.definition);
        let definition_range = Some(origin.definition_range());
        let display_label = label_of(&origin.module, &origin.qualified_symbol);
        let owner = origin.ownership_origin;
        let kind = origin.kind;
        if owner == ModuleOrigin::ThirdParty && provenance::is_chalk_namespace(&origin.module) {
            return ClassifiedCall::Blanket(
                CallMatchTarget {
                    identity,
                    kind: CallKind::Method,
                    name: origin.symbol,
                    display_label,
                    definition_range,
                    receiver_parameter: if kind == CallDefinitionOriginKind::Method
                        && call.receiver.is_some() {
                        Some(0)
                    } else {
                        None
                    },
                },
            );
        }
        let is_builtins = owner == ModuleOrigin::StandardLibrary && text::same_text(
            &origin.module,
            "builtins",
        );
        if kind == CallDefinitionOriginKind::ClassConstructor {
            if !is_builtins {
                return ClassifiedCall::Deferred;
            }
            let protocol = protocol_operation(&origin.symbol);
            return ClassifiedCall::Registry {
                target: CallMatchTarget {
                    identity,
                    kind: CallKind::Builtin,
                    name: origin.symbol,
                    display_label,
                    definition_range,
                    receiver_parameter: None,
                },
                arguments: plain_arguments(self.db, call),
                protocol,
            };
        }
        if kind == CallDefinitionOriginKind::NestedFunction {
            return ClassifiedCall::Deferred;
        }
        if kind == CallDefinitionOriginKind::Method && call.receiver.is_none() {
            return ClassifiedCall::Deferred;
        }
        let is_builtin = is_builtins && kind == CallDefinitionOriginKind::TopLevelFunction;
        let protocol = if is_builtin {
            protocol_operation(&origin.symbol)
        } else {
            None
        };
        let found = CallMatchTarget {
            identity,
            kind: if is_builtin {
                CallKind::Builtin
            } else {
                CallKind::Method
            },
            name: origin.symbol,
            display_label,
            definition_range,
            receiver_parameter: if is_builtin {
                None
            } else {
                Some(0)
            },
        };
        if owner == ModuleOrigin::FirstParty || owner == ModuleOrigin::Extra || owner
            == ModuleOrigin::Other {
            return ClassifiedCall::MissingRegistryEntry(found);
        }
        if owner != ModuleOrigin::StandardLibrary && owner != ModuleOrigin::ThirdParty {
            return ClassifiedCall::Deferred;
        }
        let arguments = if is_builtin {
            plain_arguments(self.db, call)
        } else {
            let receiver = match call.receiver {
                Some(receiver) => ActualType::Native(receiver),
                None => ActualType::SyntheticModule {
                    name: self.module_name(target.definition),
                    origin: owner,
                },
            };
            method_arguments(self.db, receiver, call)
        };
        ClassifiedCall::Registry { target: found, arguments, protocol }
    }

    fn match_call<'a>(&self, call: &ObservedCall<'a>) -> (result: CallMatch)
        where 'm: 'a
        requires
            self.wf(),
            holds_call(*self.db, *call),
        ensures
            result@ == call_outcome(*self.db, *self.supported, *call),
    {
        proof {
            reveal(outcome);
        }
        let classified = match call.target {
            ObservedCallTarget::Deferred => ClassifiedCall::Deferred,
            ObservedCallTarget::Known(known) => self.classify_known(known, call),
            ObservedCallTarget::ModuleProvenance(provenance) => self.classify_module_provenance(
                provenance,
                call,
            ),
            ObservedCallTarget::Resolved(target) => self.classify_resolved(target, call),
        };
        match classified {
            ClassifiedCall::Blanket(target) => CallMatch::Match(target),
            ClassifiedCall::MissingRegistryEntry(target) => CallMatch::NoMatch {
                target,
                reason: CallNoMatchReason::MissingRegistryEntry,
            },
            ClassifiedCall::Deferred => CallMatch::Inconclusive,
            ClassifiedCall::Registry { target, arguments, protocol } => {
                let result = match protocol {
                    Some(protocol) => {
                        let builtins = self.supported.signatures(
                            CallKind::Builtin,
                            protocol.builtin(),
                        );
                        let methods = self.supported.signatures(
                            CallKind::Method,
                            protocol.method(),
                        );
                        match (builtins, methods) {
                            (Some(builtins), Some(methods)) => self.match_protocol(
                                builtins,
                                methods,
                                &arguments,
                            ),
                            _ => {
                                return CallMatch::NoMatch {
                                    target,
                                    reason: CallNoMatchReason::MissingRegistryEntry,
                                };
                            },
                        }
                    },
                    None => match self.supported.signatures(target.kind, &target.name) {
                        Some(signatures) => self.match_signatures(signatures, &arguments),
                        None => {
                            return CallMatch::NoMatch {
                                target,
                                reason: CallNoMatchReason::MissingRegistryEntry,
                            };
                        },
                    },
                };
                match result {
                    TypeMatch::Match => CallMatch::Match(target),
                    TypeMatch::NoMatch => CallMatch::NoMatch {
                        target,
                        reason: CallNoMatchReason::SignatureMismatch,
                    },
                    TypeMatch::Inconclusive => CallMatch::Inconclusive,
                }
            },
        }
    }
}

/// Matches one thing that a call may lead to against a registry.
pub fn match_call_target(db: &Db, supported: &SupportedFuncs, call: ObservedCall<'_>) -> (result:
    CallMatch)
    requires
        db.wf(),
        supported.wf(),
        holds_call(*db, call),
    ensures
        result@ == call_outcome(*db, *supported, call),
{
    let matcher = Matcher { db, supported };
    matcher.match_call(&call)
}

/// How a definition is shown.
fn label_of(module: &str, qualified: &str) -> (label: String)
    ensures
        label@ == definition_label(module@, qualified@),
{
    if module.unicode_len() == 0 {
        qualified.to_owned()
    } else {
        let mut label = module.to_owned();
        text::push_text(&mut label, ".");
        text::push_text(&mut label, qualified);
        label
    }
}

spec fn depths(pending: Seq<(Type, usize)>) -> Seq<(Type, nat)> {
    Seq::new(pending.len(), |i: int| (pending[i].0, pending[i].1 as nat))
}

proof fn lemma_combinations_none(db: Db, arguments: Seq<Argument>, at: int)
    requires
        0 <= at <= arguments.len(),
        combinations(db, arguments.take(at)) is None,
    ensures
        combinations(db, arguments) is None,
    decreases arguments.len() - at,
{
    if at < arguments.len() {
        assert(arguments.take(at + 1).drop_last() =~= arguments.take(at));
        lemma_combinations_none(db, arguments, at + 1);
    } else {
        assert(arguments.take(at) =~= arguments);
    }
}

proof fn lemma_combine_len(groups: Seq<Seq<Argument>>, argument: Argument, types: Seq<Actual>)
    ensures
        combine(groups, argument, types).len() == groups.len() * types.len(),
    decreases groups.len(),
{
    if groups.len() > 0 {
        lemma_combine_len(groups.drop_last(), argument, types);
        assert(groups.len() * types.len() == groups.drop_last().len() * types.len() + types.len())
            by (nonlinear_arith)
            requires
                groups.len() == groups.drop_last().len() + 1,
        ;
    }
}

fn copied_arguments<'a>(arguments: &Vec<ActualArgument<'a>>) -> (copied: Vec<ActualArgument<'a>>)
    ensures
        copied@ == arguments@,
{
    let mut copied: Vec<ActualArgument<'a>> = Vec::new();
    let mut i: usize = 0;
    while i < arguments.len()
        invariant
            i <= arguments@.len(),
            copied@ =~= arguments@.take(i as int),
        decreases arguments@.len() - i,
    {
        copied.push(arguments[i]);
        i += 1;
    }
    copied
}

} // verus!
