//! What the type checker knows of a program: types, classes, modules, files and definitions.
//!
//! A [`Db`] is one consistent picture. Types, classes, modules, files and definitions are referred
//! to by handles, and two handles of one kind are the same thing exactly if they are equal.

use vstd::prelude::*;

use crate::text;
use crate::text::TextRange;

verus! {

/// A source file.
#[derive(Clone, Copy, Debug, PartialEq, Eq, Hash, Structural)]
pub struct File {
    pub id: usize,
}

/// A range in a source file.
#[derive(Clone, Copy, Debug, PartialEq, Eq, Hash, Structural)]
pub struct FileRange {
    pub file: File,
    pub range: TextRange,
}

/// A type.
#[derive(Clone, Copy, Debug, PartialEq, Eq, Hash, Structural)]
pub struct Type {
    pub id: usize,
}

/// A class together with its type arguments.
#[derive(Clone, Copy, Debug, PartialEq, Eq, Hash, Structural)]
pub struct Class {
    pub id: usize,
}

/// A module.
#[derive(Clone, Copy, Debug, PartialEq, Eq, Hash, Structural)]
pub struct Module {
    pub id: usize,
}

/// A binding of a name in a scope.
#[derive(Clone, Copy, Debug, PartialEq, Eq, Hash, Structural)]
pub struct Definition {
    pub id: usize,
}

/// The search path that a module was found on.
#[derive(Clone, Copy, Debug, PartialEq, Eq, Structural)]
pub enum SearchPath {
    StandardLibrary,
    ThirdParty,
    FirstParty,
    Extra,
    Other,
}

/// A resolved module; a namespace package has neither a search path nor a file.
#[derive(Debug)]
pub struct ModuleData {
    pub name: String,
    pub search_path: Option<SearchPath>,
    pub file: Option<File>,
}

/// A source file and the module that it is.
#[derive(Debug)]
pub struct FileData {
    pub path: String,
    pub is_vendored: bool,
    pub module: Option<Module>,
}

/// What a module name means at run time to the imports of one file.
#[derive(Debug)]
pub struct RuntimeModule {
    pub importing_file: File,
    pub name: String,
    pub module: Module,
}

/// An entry of a class's method resolution order.
#[derive(Clone, Copy, Debug, PartialEq, Eq, Structural)]
pub enum ClassBase {
    Any,
    Dynamic,
    Divergent,
    Protocol,
    Generic,
    TypedDict,
    Class(Class),
}

/// A class that the analysis knows by its role.
#[derive(Clone, Copy, Debug, PartialEq, Eq, Structural)]
pub enum KnownClass {
    List,
    SetClass,
    FrozenSet,
    Dict,
    GeneratorType,
    Generator,
    Counter,
    Other,
}

/// A class: where it is defined, what encloses it, what it derives from and what it is applied to.
#[derive(Debug)]
pub struct ClassData {
    pub name: String,
    pub file: File,
    /// The module and the scopes that enclose the class, outermost first.
    pub enclosing: Vec<String>,
    pub mro: Vec<ClassBase>,
    pub known: Option<KnownClass>,
    /// The type arguments, where the class is generic and applied.
    pub arguments: Vec<Type>,
    /// Whether the class is written in source, rather than built by a call.
    pub is_static: bool,
    /// The class before its type arguments; itself where it has none.
    pub generic: Class,
    /// Whether the class is decorated to be a class of features.
    pub is_features: bool,
    /// The fields of the class and those that it inherits, with its type arguments applied.
    pub fields: Vec<Field>,
    /// The symbols that the body of the class declares.
    pub declarations: Vec<Declaration>,
}

/// How a field came to be.
#[derive(Clone, Copy, Debug, PartialEq, Eq, Structural)]
pub enum FieldKind {
    Dataclass { init_only: bool, init: bool },
    Other,
}

/// A field of a class.
#[derive(Debug)]
pub struct Field {
    pub name: String,
    pub declared: Type,
    pub kind: FieldKind,
}

/// What the body of a class declares a symbol to be, at its end.
#[derive(Debug)]
pub struct Declaration {
    pub name: String,
    /// Whether every declaration that can be reached is an annotated assignment.
    pub is_annotated: bool,
    pub is_class_var: bool,
    pub is_init_var: bool,
    /// The declared type, with the type arguments of the class applied.
    pub declared: Option<Type>,
}

/// What remains of a union.
#[derive(Clone, Copy, Debug, PartialEq, Eq, Structural)]
pub struct UnionParts {
    /// The union without its elements that are `None`.
    pub without_none: Type,
    /// The union of its elements that are `None`.
    pub only_none: Type,
}

/// What a type variable ranges over.
#[derive(Clone, Copy, Debug, PartialEq, Eq, Structural)]
pub enum TypeVarBound {
    Unbound,
    UpperBound,
    Constraints(Type),
}

/// What a `type[...]` is about.
#[derive(Clone, Copy, Debug, PartialEq, Eq, Structural)]
pub enum SubclassOfInner {
    Class(Class),
    Dynamic,
    TypeVar,
}

/// A protocol that the analysis makes up for a set of features.
#[derive(Clone, Copy, Debug, PartialEq, Eq, Structural)]
pub enum SynthesizedProtocolKind {
    ChalkFeatures,
    ChalkSuppliedFeatures,
    Other,
}

/// The form of a type.
#[derive(Debug)]
pub enum TypeKind {
    Dynamic,
    Divergent { fallback: Option<Type> },
    Never,
    TypeAlias { value: Type },
    NewTypeInstance { base: Type },
    TypeVar { bound: TypeVarBound },
    EnumComplement { remaining: Type },
    Union { elements: Vec<Type> },
    Intersection { positive: Vec<Type>, top: Type, bottom: Type },
    AlwaysTruthy,
    AlwaysFalsy,
    ClassLiteral { class: Class },
    GenericAlias { class: Class },
    SubclassOf { inner: SubclassOfInner },
    TypedDict { defining_class: Option<Class> },
    /// What has the members of an interface, whose names are listed in order.
    ProtocolInstance { synthesized: Option<SynthesizedProtocolKind>, interface: Vec<String> },
    ModuleLiteral { module: Module },
    FunctionLiteral,
    BoundMethod,
    StrStartswith,
    Instance,
    Other,
}

/// Whether a member is there on every path.
#[derive(Clone, Copy, Debug, PartialEq, Eq, Structural)]
pub enum Definedness {
    AlwaysDefined,
    PossiblyUndefined,
}

/// A member of a type.
#[derive(Debug)]
pub struct Member {
    pub name: String,
    pub ty: Type,
    pub definedness: Definedness,
}

/// The elements of a tuple type.
#[derive(Debug)]
pub struct TupleSpec {
    pub elements: Vec<Type>,
    pub is_variadic: bool,
}

/// The definition behind a callable type.
#[derive(Clone, Copy, Debug, PartialEq, Eq, Structural)]
pub enum TypeDefinition {
    Function(Definition),
    StaticClass(Definition),
    Other,
}

/// A type and what the type checker says of it.
#[derive(Debug)]
pub struct TypeData {
    pub kind: TypeKind,
    /// The class of the instances or literals that the type stands for.
    pub nominal_class: Option<Class>,
    pub is_none: bool,
    pub is_enum: bool,
    pub tuple: Option<TupleSpec>,
    /// What iterating over a value of the type gives, where it can be iterated over.
    pub iterates: Option<Type>,
    pub definition: Option<TypeDefinition>,
    pub members: Vec<Member>,
    /// The types that the type is assignable to, where that was asked.
    pub assignable_to: Vec<Type>,
    /// The types that the type is assignable to for some choice of the type variables that are
    /// being inferred, where that was asked.
    pub inferable_to: Vec<Type>,
    /// The members that instances have of their own, for the type of an instance.
    pub instance_members: Vec<Member>,
    /// The type of the instances, for the type of a class.
    pub instance: Option<Type>,
    /// What remains of the type, for a union.
    pub parts: Option<UnionParts>,
}

/// What a definition binds.
#[derive(Debug)]
pub enum DefinitionKind {
    Function,
    Class,
    /// `from module import symbol`, with the absolute module name where it can be told.
    ImportFrom { module: Option<String>, symbol: String, typing_module: Option<Module> },
    /// `from module import *`.
    StarImport { module: Option<String>, typing_module: Option<Module> },
    Other,
}

/// A scope that encloses a definition.
#[derive(Debug)]
pub enum ScopeNode {
    Module,
    Class { name: String },
    Function { name: String },
    Other,
}

/// A definition: where it is, what it binds and what encloses it.
#[derive(Debug)]
pub struct DefinitionData {
    pub file: File,
    pub kind: DefinitionKind,
    pub name: String,
    /// The enclosing scopes, innermost first.
    pub scopes: Vec<ScopeNode>,
    /// The range of the defined name.
    pub focus: TextRange,
}

/// Everything that the type checker knows.
#[derive(Debug)]
pub struct Db {
    pub types: Vec<TypeData>,
    pub classes: Vec<ClassData>,
    pub modules: Vec<ModuleData>,
    pub files: Vec<FileData>,
    pub definitions: Vec<DefinitionData>,
    pub runtime_modules: Vec<RuntimeModule>,
    /// The type of what nothing is known of.
    pub unknown: Type,
}

impl Db {
    pub open spec fn has_type(self, ty: Type) -> bool {
        ty.id < self.types@.len()
    }

    pub open spec fn has_class(self, class: Class) -> bool {
        class.id < self.classes@.len()
    }

    pub open spec fn has_module(self, module: Module) -> bool {
        module.id < self.modules@.len()
    }

    pub open spec fn has_file(self, file: File) -> bool {
        file.id < self.files@.len()
    }

    pub open spec fn has_definition(self, definition: Definition) -> bool {
        definition.id < self.definitions@.len()
    }

    pub open spec fn ty(self, ty: Type) -> TypeData {
        self.types@[ty.id as int]
    }

    pub open spec fn class(self, class: Class) -> ClassData {
        self.classes@[class.id as int]
    }

    pub open spec fn module(self, module: Module) -> ModuleData {
        self.modules@[module.id as int]
    }

    pub open spec fn file(self, file: File) -> FileData {
        self.files@[file.id as int]
    }

    pub open spec fn definition(self, definition: Definition) -> DefinitionData {
        self.definitions@[definition.id as int]
    }

    /// All types of a list are in the picture.
    pub open spec fn has_types(self, types: Seq<Type>) -> bool {
        forall|i: int| 0 <= i < types.len() ==> self.has_type(#[trigger] types[i])
    }

    /// What a type's form mentions is in the picture, and no element of a union is a union.
    pub open spec fn kind_wf(self, kind: TypeKind) -> bool {
        match kind {
            TypeKind::Divergent { fallback: Some(ty) } => self.has_type(ty),
            TypeKind::TypeAlias { value } => self.has_type(value),
            TypeKind::NewTypeInstance { base } => self.has_type(base),
            TypeKind::TypeVar { bound: TypeVarBound::Constraints(ty) } => self.has_type(ty),
            TypeKind::EnumComplement { remaining } => self.has_type(remaining),
            TypeKind::Union { elements } => self.has_types(elements@) && forall|i: int|
                0 <= i < elements@.len() ==> !(self.ty(#[trigger] elements@[i]).kind is Union),
            TypeKind::Intersection { positive, top, bottom } => self.has_types(positive@)
                && self.has_type(top) && self.has_type(bottom),
            TypeKind::ClassLiteral { class } => self.has_class(class),
            TypeKind::GenericAlias { class } => self.has_class(class),
            TypeKind::SubclassOf { inner: SubclassOfInner::Class(class) } => self.has_class(class),
            TypeKind::TypedDict { defining_class: Some(class) } => self.has_class(class),
            TypeKind::ModuleLiteral { module } => self.has_module(module),
            _ => true,
        }
    }

    /// What a type mentions is in the picture, and `None` is an instance.
    pub open spec fn type_wf(self, data: TypeData) -> bool {
        &&& self.kind_wf(data.kind)
        &&& data.is_none ==> data.kind is Instance
        &&& data.nominal_class matches Some(class) ==> self.has_class(class)
        &&& data.tuple matches Some(tuple) ==> self.has_types(tuple.elements@)
        &&& data.iterates matches Some(ty) ==> self.has_type(ty)
        &&& match data.definition {
            Some(TypeDefinition::Function(definition)) => self.has_definition(definition),
            Some(TypeDefinition::StaticClass(definition)) => self.has_definition(definition),
            _ => true,
        }
        &&& forall|i: int|
            0 <= i < data.members@.len() ==> self.has_type((#[trigger] data.members@[i]).ty)
        &&& forall|i: int|
            0 <= i < data.instance_members@.len() ==> self.has_type(
                (#[trigger] data.instance_members@[i]).ty,
            )
        &&& data.instance matches Some(ty) ==> self.has_type(ty)
        &&& data.parts matches Some(parts) ==> self.has_type(parts.without_none) && self.has_type(
            parts.only_none,
        )
    }

    /// What a class mentions is in the picture.
    pub open spec fn class_wf(self, data: ClassData) -> bool {
        &&& self.has_file(data.file)
        &&& self.has_types(data.arguments@)
        &&& self.has_class(data.generic)
        &&& forall|i: int|
            0 <= i < data.fields@.len() ==> self.has_type((#[trigger] data.fields@[i]).declared)
        &&& forall|i: int|
            0 <= i < data.declarations@.len() ==> ((#[trigger] data.declarations@[i]).declared
                matches Some(ty) ==> self.has_type(ty))
        &&& forall|i: int|
            0 <= i < data.mro@.len() ==> ((#[trigger] data.mro@[i]) matches ClassBase::Class(
                class,
            ) ==> self.has_class(class))
    }

    /// What a definition mentions is in the picture.
    pub open spec fn definition_wf(self, data: DefinitionData) -> bool {
        &&& self.has_file(data.file)
        &&& match data.kind {
            DefinitionKind::ImportFrom { typing_module: Some(module), .. } => self.has_module(
                module,
            ),
            DefinitionKind::StarImport { typing_module: Some(module), .. } => self.has_module(
                module,
            ),
            _ => true,
        }
    }

    /// Everything that is mentioned is in the picture.
    pub open spec fn wf(self) -> bool {
        &&& self.has_type(self.unknown)
        &&& forall|i: int| 0 <= i < self.types@.len() ==> self.type_wf(#[trigger] self.types@[i])
        &&& forall|i: int|
            0 <= i < self.classes@.len() ==> self.class_wf(#[trigger] self.classes@[i])
        &&& forall|i: int|
            0 <= i < self.modules@.len() ==> ((#[trigger] self.modules@[i]).file matches Some(file)
                ==> self.has_file(file))
        &&& forall|i: int|
            0 <= i < self.files@.len() ==> ((#[trigger] self.files@[i]).module matches Some(module)
                ==> self.has_module(module))
        &&& forall|i: int|
            0 <= i < self.definitions@.len() ==> self.definition_wf(#[trigger] self.definitions@[i])
        &&& forall|i: int|
            0 <= i < self.runtime_modules@.len() ==> self.has_module(
                (#[trigger] self.runtime_modules@[i]).module,
            )
    }

    /// The run-time module that a name means to the imports of a file: the first one recorded.
    pub open spec fn real_module_from(self, file: File, name: Seq<char>, at: int) -> Option<Module>
        decreases self.runtime_modules@.len() - at,
    {
        if at < 0 || at >= self.runtime_modules@.len() {
            None
        } else if self.runtime_modules@[at].importing_file == file
            && self.runtime_modules@[at].name@ == name {
            Some(self.runtime_modules@[at].module)
        } else {
            self.real_module_from(file, name, at + 1)
        }
    }

    /// The run-time module that a name means to the imports of a file.
    pub open spec fn real_module(self, file: File, name: Seq<char>) -> Option<Module> {
        self.real_module_from(file, name, 0)
    }

    /// Resolves a module name at run time, as the imports of a file see it.
    pub fn resolve_real_module(&self, file: File, name: &str) -> (module: Option<Module>)
        requires
            self.wf(),
        ensures
            module == self.real_module(file, name@),
            module matches Some(module) ==> self.has_module(module),
    {
        let mut at: usize = 0;
        while at < self.runtime_modules.len()
            invariant
                self.wf(),
                at <= self.runtime_modules.len(),
                self.real_module(file, name@) == self.real_module_from(file, name@, at as int),
            decreases self.runtime_modules.len() - at,
        {
            let entry = &self.runtime_modules[at];
            if entry.importing_file == file && text::same_text(entry.name.as_str(), name) {
                return Some(entry.module);
            }
            at = at + 1;
        }
        None
    }

    /// The member of a type with a name: the first one recorded.
    pub open spec fn member_from(self, ty: Type, name: Seq<char>, at: int) -> Option<
        (Type, Definedness),
    >
        decreases self.ty(ty).members@.len() - at,
    {
        let members = self.ty(ty).members@;
        if at < 0 || at >= members.len() {
            None
        } else if members[at].name@ == name {
            Some((members[at].ty, members[at].definedness))
        } else {
            self.member_from(ty, name, at + 1)
        }
    }

    /// The member of a type with a name.
    pub open spec fn member(self, ty: Type, name: Seq<char>) -> Option<(Type, Definedness)> {
        self.member_from(ty, name, 0)
    }

    /// The type of a member is in the picture.
    pub proof fn lemma_member(self, ty: Type, name: Seq<char>)
        requires
            self.wf(),
            self.has_type(ty),
        ensures
            self.member(ty, name) matches Some(found) ==> self.has_type(found.0),
    {
        self.lemma_member_from(ty, name, 0);
    }

    proof fn lemma_member_from(self, ty: Type, name: Seq<char>, at: int)
        requires
            self.wf(),
            self.has_type(ty),
        ensures
            self.member_from(ty, name, at) matches Some(found) ==> self.has_type(found.0),
        decreases self.ty(ty).members@.len() - at,
    {
        let members = self.ty(ty).members@;
        assert(self.type_wf(self.types@[ty.id as int]));
        if 0 <= at < members.len() && members[at].name@ != name {
            self.lemma_member_from(ty, name, at + 1);
        }
    }

    /// Looks a member of a type up.
    pub fn find_member(&self, ty: Type, name: &str) -> (member: Option<(Type, Definedness)>)
        requires
            self.wf(),
            self.has_type(ty),
        ensures
            member == self.member(ty, name@),
            member matches Some(found) ==> self.has_type(found.0),
    {
        let members = &self.types[ty.id].members;
        let mut at: usize = 0;
        while at < members.len()
            invariant
                self.wf(),
                self.has_type(ty),
                members@ == self.ty(ty).members@,
                at <= members.len(),
                self.member(ty, name@) == self.member_from(ty, name@, at as int),
            decreases members.len() - at,
        {
            let entry = &members[at];
            if text::same_text(entry.name.as_str(), name) {
                assert(self.type_wf(self.types@[ty.id as int]));
                return Some((entry.ty, entry.definedness));
            }
            at = at + 1;
        }
        None
    }

    /// Whether a type is recorded as assignable to another.
    pub open spec fn assignable(self, actual: Type, expected: Type) -> bool {
        self.ty(actual).assignable_to@.contains(expected)
    }

    /// Whether a type is recorded as assignable to another.
    pub fn is_assignable_to(&self, actual: Type, expected: Type) -> (assignable: bool)
        requires
            self.has_type(actual),
        ensures
            assignable == self.assignable(actual, expected),
    {
        let list = &self.types[actual.id].assignable_to;
        let mut at: usize = 0;
        while at < list.len()
            invariant
                self.has_type(actual),
                list@ == self.ty(actual).assignable_to@,
                at <= list.len(),
                forall|j: int| 0 <= j < at ==> #[trigger] list@[j] != expected,
            decreases list.len() - at,
        {
            if list[at] == expected {
                assert(list@[at as int] == expected);
                return true;
            }
            at = at + 1;
        }
        false
    }
}

} // verus!
