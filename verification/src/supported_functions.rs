//! The registry of calls that the accelerator can run, and the types its signatures speak of.

use vstd::prelude::*;

use crate::order;
use crate::order::{Keyed, Ordered};
use crate::text;
use crate::text::Relation;

verus! {

/// How a call is written at its site.
#[derive(Clone, Copy, Debug, PartialEq, Eq, Hash, Structural)]
pub enum CallKind {
    Builtin,
    Method,
    Attribute,
}

impl CallKind {
    /// The position of this kind in the registry's order.
    pub open spec fn rank(self) -> int {
        match self {
            CallKind::Builtin => 0,
            CallKind::Method => 1,
            CallKind::Attribute => 2,
        }
    }

    /// The position of this kind in the registry's order.
    fn position(self) -> (position: u8)
        ensures
            position == self.rank(),
    {
        match self {
            CallKind::Builtin => 0,
            CallKind::Method => 1,
            CallKind::Attribute => 2,
        }
    }
}

/// A call name together with how the call is written.
#[derive(Debug)]
pub struct SupportedCall {
    pub kind: CallKind,
    pub name: String,
}

/// What identifies a call in the registry.
pub struct CallKey {
    pub kind: CallKind,
    pub name: Seq<char>,
}

impl SupportedCall {
    /// The call `name` of kind `kind`.
    pub fn new(kind: CallKind, name: &str) -> (call: Self)
        ensures
            call.kind == kind,
            call.name@ == name@,
    {
        SupportedCall { kind, name: name.to_owned() }
    }

    /// How the call is written.
    pub fn kind(&self) -> (kind: CallKind)
        ensures
            kind == self.kind,
    {
        self.kind
    }

    /// The called name.
    pub fn name(&self) -> (name: &str)
        ensures
            name@ == self.name@,
    {
        self.name.as_str()
    }

    /// A copy of this call.
    pub fn copied(&self) -> (call: Self)
        ensures
            call.key() == self.key(),
    {
        SupportedCall { kind: self.kind, name: self.name.clone() }
    }
}

impl Ordered for SupportedCall {
    type Key = CallKey;

    open spec fn key(&self) -> CallKey {
        CallKey { kind: self.kind, name: self.name@ }
    }

    open spec fn key_before(a: CallKey, b: CallKey) -> bool {
        a.kind.rank() < b.kind.rank() || (a.kind == b.kind && text::text_before(a.name, b.name))
    }

    proof fn key_irreflexive(a: CallKey) {
        text::lemma_text_before_irreflexive(a.name);
    }

    proof fn key_transitive(a: CallKey, b: CallKey, c: CallKey) {
        if a.kind == b.kind && b.kind == c.kind {
            text::lemma_text_before_transitive(a.name, b.name, c.name);
        }
    }

    proof fn key_total(a: CallKey, b: CallKey) {
        text::lemma_text_before_total(a.name, b.name);
    }
}

impl Keyed for SupportedCall {
    fn relate(&self, other: &Self) -> (relation: Relation) {
        proof {
            text::lemma_text_before_total(self.name@, other.name@);
        }
        let left: u8 = self.kind.position();
        let right: u8 = other.kind.position();
        if left < right {
            Relation::Less
        } else if right < left {
            Relation::Greater
        } else {
            text::order_text(self.name.as_str(), other.name.as_str())
        }
    }
}

/// A type in a registry signature.
#[allow(inconsistent_fields)]
#[derive(Debug)]
pub enum SupportedTy {
    Any { nullable: bool },
    Bool { nullable: bool },
    Bytes { nullable: bool },
    Class { nullable: bool, module: String, name: String },
    Counter { nullable: bool, items: Box<SupportedTy> },
    Date { nullable: bool },
    DateTime { nullable: bool },
    Dict { nullable: bool, key_type: Box<SupportedTy>, value_type: Box<SupportedTy> },
    Float { nullable: bool },
    FrozenSet { nullable: bool, items: Box<SupportedTy> },
    Generator { nullable: bool, items: Box<SupportedTy> },
    HashlibHash { nullable: bool },
    Int { nullable: bool },
    Iterable { nullable: bool, items: Box<SupportedTy> },
    Json { nullable: bool },
    List { nullable: bool, items: Box<SupportedTy> },
    Module { nullable: bool, name: String },
    NoneType { nullable: bool },
    ReMatch { nullable: bool },
    RePattern { nullable: bool },
    RequestsHttpResponse { nullable: bool },
    SetType { nullable: bool, items: Box<SupportedTy> },
    SequenceMatcher { nullable: bool },
    Str { nullable: bool },
    SubClassOf { ty_name: String, match_nullable: bool },
    Time { nullable: bool },
    Timedelta { nullable: bool },
    TimeZone { nullable: bool },
    Tuple { nullable: bool, items: Vec<SupportedTy>, is_variable: bool },
    Other { nullable: bool, name: String },
}

/// The constructor of a [`SupportedTy`].
#[derive(Clone, Copy, Debug, PartialEq, Eq, Structural)]
pub enum TyKind {
    Any,
    Bool,
    Bytes,
    Class,
    Counter,
    Date,
    DateTime,
    Dict,
    Float,
    FrozenSet,
    Generator,
    HashlibHash,
    Int,
    Iterable,
    Json,
    List,
    Module,
    NoneType,
    ReMatch,
    RePattern,
    RequestsHttpResponse,
    SetType,
    SequenceMatcher,
    Str,
    SubClassOf,
    Time,
    Timedelta,
    TimeZone,
    Tuple,
    Other,
}

/// A registry type as a labelled tree.
#[verifier::ext_equal]
pub struct TyTree {
    pub kind: TyKind,
    pub nullable: bool,
    pub variable: bool,
    pub names: Seq<Seq<char>>,
    pub parts: Seq<TyTree>,
}

impl TyTree {
    /// The same tree, as it reads where the root does not say whether it accepts `None`.
    pub open spec fn shape(self) -> TyTree {
        TyTree { nullable: false, ..self }
    }
}

/// A tree with names and no parts.
pub open spec fn named_tree(kind: TyKind, nullable: bool, names: Seq<Seq<char>>) -> TyTree {
    TyTree { kind, nullable, variable: false, names, parts: Seq::empty() }
}

/// A tree with neither names nor parts.
pub open spec fn leaf_tree(kind: TyKind, nullable: bool) -> TyTree {
    named_tree(kind, nullable, Seq::empty())
}

/// A tree over parts.
pub open spec fn compound_tree(kind: TyKind, nullable: bool, parts: Seq<TyTree>) -> TyTree {
    TyTree { kind, nullable, variable: false, names: Seq::empty(), parts }
}

/// The tree of a registry type.
pub open spec fn tree(ty: SupportedTy) -> TyTree
    decreases ty,
{
    match ty {
        SupportedTy::Any { nullable } => leaf_tree(TyKind::Any, nullable),
        SupportedTy::Bool { nullable } => leaf_tree(TyKind::Bool, nullable),
        SupportedTy::Bytes { nullable } => leaf_tree(TyKind::Bytes, nullable),
        SupportedTy::Class { nullable, module, name } => named_tree(TyKind::Class, nullable, seq![module@, name@]),
        SupportedTy::Counter { nullable, items } => compound_tree(TyKind::Counter, nullable, seq![tree(*items)]),
        SupportedTy::Date { nullable } => leaf_tree(TyKind::Date, nullable),
        SupportedTy::DateTime { nullable } => leaf_tree(TyKind::DateTime, nullable),
        SupportedTy::Dict { nullable, key_type, value_type } => compound_tree(TyKind::Dict, nullable, seq![tree(*key_type), tree(*value_type)]),
        SupportedTy::Float { nullable } => leaf_tree(TyKind::Float, nullable),
        SupportedTy::FrozenSet { nullable, items } => compound_tree(TyKind::FrozenSet, nullable, seq![tree(*items)]),
        SupportedTy::Generator { nullable, items } => compound_tree(TyKind::Generator, nullable, seq![tree(*items)]),
        SupportedTy::HashlibHash { nullable } => leaf_tree(TyKind::HashlibHash, nullable),
        SupportedTy::Int { nullable } => leaf_tree(TyKind::Int, nullable),
        SupportedTy::Iterable { nullable, items } => compound_tree(TyKind::Iterable, nullable, seq![tree(*items)]),
        SupportedTy::Json { nullable } => leaf_tree(TyKind::Json, nullable),
        SupportedTy::List { nullable, items } => compound_tree(TyKind::List, nullable, seq![tree(*items)]),
        SupportedTy::Module { nullable, name } => named_tree(TyKind::Module, nullable, seq![name@]),
        SupportedTy::NoneType { nullable } => leaf_tree(TyKind::NoneType, nullable),
        SupportedTy::ReMatch { nullable } => leaf_tree(TyKind::ReMatch, nullable),
        SupportedTy::RePattern { nullable } => leaf_tree(TyKind::RePattern, nullable),
        SupportedTy::RequestsHttpResponse { nullable } => leaf_tree(TyKind::RequestsHttpResponse, nullable),
        SupportedTy::SetType { nullable, items } => compound_tree(TyKind::SetType, nullable, seq![tree(*items)]),
        SupportedTy::SequenceMatcher { nullable } => leaf_tree(TyKind::SequenceMatcher, nullable),
        SupportedTy::Str { nullable } => leaf_tree(TyKind::Str, nullable),
        SupportedTy::SubClassOf { ty_name, match_nullable } => named_tree(TyKind::SubClassOf, match_nullable, seq![ty_name@]),
        SupportedTy::Time { nullable } => leaf_tree(TyKind::Time, nullable),
        SupportedTy::Timedelta { nullable } => leaf_tree(TyKind::Timedelta, nullable),
        SupportedTy::TimeZone { nullable } => leaf_tree(TyKind::TimeZone, nullable),
        SupportedTy::Tuple { nullable, items, is_variable } => TyTree { kind: TyKind::Tuple, nullable, variable: is_variable, names: Seq::empty(), parts: trees(items@) },
        SupportedTy::Other { nullable, name } => named_tree(TyKind::Other, nullable, seq![name@]),
    }
}

/// The trees of several registry types.
pub open spec fn trees(items: Seq<SupportedTy>) -> Seq<TyTree>
    decreases items,
{
    if items.len() == 0 {
        Seq::empty()
    } else {
        trees(items.drop_last()).push(tree(items.last()))
    }
}

/// `trees` works item by item.
pub proof fn lemma_trees(items: Seq<SupportedTy>)
    ensures
        trees(items).len() == items.len(),
        forall|i: int| 0 <= i < items.len() ==> #[trigger] trees(items)[i] == tree(items[i]),
    decreases items.len(),
{
    if items.len() > 0 {
        lemma_trees(items.drop_last());
    }
}

impl View for SupportedTy {
    type V = TyTree;

    open spec fn view(&self) -> TyTree {
        tree(*self)
    }
}

impl SupportedTy {
    /// Whether a `None` argument meets this type.
    pub open spec fn takes_none(self) -> bool {
        self@.nullable || self is NoneType
    }

    /// The constructor of this type.
    pub fn kind(&self) -> (kind: TyKind)
        ensures
            kind == self@.kind,
    {
        match self {
            SupportedTy::Any { .. } => TyKind::Any,
            SupportedTy::Bool { .. } => TyKind::Bool,
            SupportedTy::Bytes { .. } => TyKind::Bytes,
            SupportedTy::Class { .. } => TyKind::Class,
            SupportedTy::Counter { .. } => TyKind::Counter,
            SupportedTy::Date { .. } => TyKind::Date,
            SupportedTy::DateTime { .. } => TyKind::DateTime,
            SupportedTy::Dict { .. } => TyKind::Dict,
            SupportedTy::Float { .. } => TyKind::Float,
            SupportedTy::FrozenSet { .. } => TyKind::FrozenSet,
            SupportedTy::Generator { .. } => TyKind::Generator,
            SupportedTy::HashlibHash { .. } => TyKind::HashlibHash,
            SupportedTy::Int { .. } => TyKind::Int,
            SupportedTy::Iterable { .. } => TyKind::Iterable,
            SupportedTy::Json { .. } => TyKind::Json,
            SupportedTy::List { .. } => TyKind::List,
            SupportedTy::Module { .. } => TyKind::Module,
            SupportedTy::NoneType { .. } => TyKind::NoneType,
            SupportedTy::ReMatch { .. } => TyKind::ReMatch,
            SupportedTy::RePattern { .. } => TyKind::RePattern,
            SupportedTy::RequestsHttpResponse { .. } => TyKind::RequestsHttpResponse,
            SupportedTy::SetType { .. } => TyKind::SetType,
            SupportedTy::SequenceMatcher { .. } => TyKind::SequenceMatcher,
            SupportedTy::Str { .. } => TyKind::Str,
            SupportedTy::SubClassOf { .. } => TyKind::SubClassOf,
            SupportedTy::Time { .. } => TyKind::Time,
            SupportedTy::Timedelta { .. } => TyKind::Timedelta,
            SupportedTy::TimeZone { .. } => TyKind::TimeZone,
            SupportedTy::Tuple { .. } => TyKind::Tuple,
            SupportedTy::Other { .. } => TyKind::Other,
        }
    }

    /// The root's own flag.
    pub fn nullable(&self) -> (nullable: bool)
        ensures
            nullable == self@.nullable,
    {
        match self {
            SupportedTy::Any { nullable, .. } => *nullable,
            SupportedTy::Bool { nullable, .. } => *nullable,
            SupportedTy::Bytes { nullable, .. } => *nullable,
            SupportedTy::Class { nullable, .. } => *nullable,
            SupportedTy::Counter { nullable, .. } => *nullable,
            SupportedTy::Date { nullable, .. } => *nullable,
            SupportedTy::DateTime { nullable, .. } => *nullable,
            SupportedTy::Dict { nullable, .. } => *nullable,
            SupportedTy::Float { nullable, .. } => *nullable,
            SupportedTy::FrozenSet { nullable, .. } => *nullable,
            SupportedTy::Generator { nullable, .. } => *nullable,
            SupportedTy::HashlibHash { nullable, .. } => *nullable,
            SupportedTy::Int { nullable, .. } => *nullable,
            SupportedTy::Iterable { nullable, .. } => *nullable,
            SupportedTy::Json { nullable, .. } => *nullable,
            SupportedTy::List { nullable, .. } => *nullable,
            SupportedTy::Module { nullable, .. } => *nullable,
            SupportedTy::NoneType { nullable, .. } => *nullable,
            SupportedTy::ReMatch { nullable, .. } => *nullable,
            SupportedTy::RePattern { nullable, .. } => *nullable,
            SupportedTy::RequestsHttpResponse { nullable, .. } => *nullable,
            SupportedTy::SetType { nullable, .. } => *nullable,
            SupportedTy::SequenceMatcher { nullable, .. } => *nullable,
            SupportedTy::Str { nullable, .. } => *nullable,
            SupportedTy::SubClassOf { match_nullable: nullable, .. } => *nullable,
            SupportedTy::Time { nullable, .. } => *nullable,
            SupportedTy::Timedelta { nullable, .. } => *nullable,
            SupportedTy::TimeZone { nullable, .. } => *nullable,
            SupportedTy::Tuple { nullable, .. } => *nullable,
            SupportedTy::Other { nullable, .. } => *nullable,
        }
    }

    /// Whether a `None` argument meets this type.
    pub fn accepts_none(&self) -> (accepts: bool)
        ensures
            accepts == self.takes_none(),
    {
        match self {
            SupportedTy::NoneType { .. } => true,
            _ => self.nullable(),
        }
    }

    /// Whether this is a tuple of any length.
    fn variable(&self) -> (variable: bool)
        ensures
            variable == self@.variable,
    {
        match self {
            SupportedTy::Tuple { is_variable, .. } => *is_variable,
            _ => false,
        }
    }

    /// The names that the root holds.
    fn names(&self) -> (names: Vec<&String>)
        ensures
            names@.len() == self@.names.len(),
            forall|i: int| 0 <= i < names@.len() ==> (#[trigger] names@[i])@ == self@.names[i],
    {
        let mut names: Vec<&String> = Vec::new();
        match self {
            SupportedTy::Class { module, name, .. } => {
                names.push(module);
                names.push(name);
            },
            SupportedTy::Module { name, .. } => {
                names.push(name);
            },
            SupportedTy::Other { name, .. } => {
                names.push(name);
            },
            SupportedTy::SubClassOf { ty_name, .. } => {
                names.push(ty_name);
            },
            _ => {},
        }
        names
    }

    /// The types that the root holds.
    fn parts(&self) -> (parts: Vec<&SupportedTy>)
        ensures
            parts@.len() == self@.parts.len(),
            forall|i: int| 0 <= i < parts@.len() ==> (#[trigger] parts@[i])@ == self@.parts[i],
            forall|i: int|
                0 <= i < parts@.len() ==> decreases_to!(*self => *(#[trigger] parts@[i])),
    {
        let mut parts: Vec<&SupportedTy> = Vec::new();
        match self {
            SupportedTy::Counter { items, .. } => {
                parts.push(&**items);
            },
            SupportedTy::FrozenSet { items, .. } => {
                parts.push(&**items);
            },
            SupportedTy::Generator { items, .. } => {
                parts.push(&**items);
            },
            SupportedTy::Iterable { items, .. } => {
                parts.push(&**items);
            },
            SupportedTy::List { items, .. } => {
                parts.push(&**items);
            },
            SupportedTy::SetType { items, .. } => {
                parts.push(&**items);
            },
            SupportedTy::Dict { key_type, value_type, .. } => {
                parts.push(&**key_type);
                parts.push(&**value_type);
            },
            SupportedTy::Tuple { items, .. } => {
                proof {
                    lemma_trees(items@);
                }
                let mut i: usize = 0;
                while i < items.len()
                    invariant
                        i <= items.len(),
                        self matches SupportedTy::Tuple { items: held, .. } && held == *items,
                        parts@.len() == i,
                        forall|j: int| 0 <= j < i ==> *(#[trigger] parts@[j]) == items@[j],
                        forall|j: int|
                            0 <= j < i ==> decreases_to!(*self => *(#[trigger] parts@[j])),
                    decreases items.len() - i,
                {
                    proof {
                        assert(decreases_to!(*self => *items));
                        assert(decreases_to!(*items => items@[i as int]));
                    }
                    parts.push(&items[i]);
                    i = i + 1;
                }
            },
            _ => {},
        }
        parts
    }
}

/// Whether two lists of names agree.
fn same_names(left: &Vec<&String>, right: &Vec<&String>) -> (same: bool)
    ensures
        same == (left@.len() == right@.len() && forall|i: int|
            0 <= i < left@.len() ==> (#[trigger] left@[i])@ == right@[i]@),
{
    if left.len() != right.len() {
        return false;
    }
    let mut i: usize = 0;
    while i < left.len()
        invariant
            i <= left.len(),
            left.len() == right.len(),
            forall|j: int| 0 <= j < i ==> (#[trigger] left@[j])@ == right@[j]@,
        decreases left.len() - i,
    {
        if !text::same_text(left[i].as_str(), right[i].as_str()) {
            return false;
        }
        i = i + 1;
    }
    true
}

/// Whether two registry types agree in everything but the flag at their roots.
pub fn same_shape(left: &SupportedTy, right: &SupportedTy) -> (same: bool)
    ensures
        same == (left@.shape() == right@.shape()),
    decreases left, 1int,
{
    if left.kind() != right.kind() || left.variable() != right.variable() {
        return false;
    }
    let left_names = left.names();
    let right_names = right.names();
    if !same_names(&left_names, &right_names) {
        return false;
    }
    proof {
        assert forall|i: int| 0 <= i < left@.names.len() implies left@.names[i]
            == right@.names[i] by {
            assert(left_names@[i]@ == right_names@[i]@);
        }
        assert(left@.names =~= right@.names);
    }
    let left_parts = left.parts();
    let right_parts = right.parts();
    if left_parts.len() != right_parts.len() {
        return false;
    }
    let mut i: usize = 0;
    while i < left_parts.len()
        invariant
            i <= left_parts.len(),
            left_parts.len() == right_parts.len(),
            left_parts@.len() == left@.parts.len(),
            right_parts@.len() == right@.parts.len(),
            forall|j: int|
                0 <= j < left_parts@.len() ==> (#[trigger] left_parts@[j])@ == left@.parts[j],
            forall|j: int|
                0 <= j < right_parts@.len() ==> (#[trigger] right_parts@[j])@ == right@.parts[j],
            forall|j: int|
                0 <= j < left_parts@.len() ==> decreases_to!(*left => *(#[trigger] left_parts@[j])),
            forall|j: int|
                0 <= j < i ==> (#[trigger] left_parts@[j])@ == right_parts@[j]@,
        decreases left_parts.len() - i,
    {
        if !same_type(left_parts[i], right_parts[i]) {
            proof {
                assert(left@.parts[i as int] != right@.parts[i as int]);
            }
            return false;
        }
        i = i + 1;
    }
    proof {
        assert forall|j: int| 0 <= j < left@.parts.len() implies left@.parts[j]
            == right@.parts[j] by {
            assert(left_parts@[j]@ == right_parts@[j]@);
        }
        assert(left@.parts =~= right@.parts);
    }
    true
}

/// Whether two registry types are the same.
pub fn same_type(left: &SupportedTy, right: &SupportedTy) -> (same: bool)
    ensures
        same == (left@ == right@),
    decreases left, 2int,
{
    left.nullable() == right.nullable() && same_shape(left, right)
}

/// One argument of a registry signature.
#[derive(Debug)]
pub struct SupportedArg {
    pub ty: SupportedTy,
    pub argument_name: Option<String>,
    pub has_default: bool,
}

impl SupportedArg {
    /// The argument's name, where it has one.
    pub open spec fn label(self) -> Option<Seq<char>> {
        match self.argument_name {
            Some(name) => Some(name@),
            None => None,
        }
    }

    /// The argument's type.
    pub fn ty(&self) -> (ty: &SupportedTy)
        ensures
            *ty == self.ty,
    {
        &self.ty
    }

    /// The argument's name, where it has one.
    pub fn argument_name(&self) -> (name: Option<&str>)
        ensures
            match name {
                Some(name) => self.label() == Some(name@),
                None => self.label() is None,
            },
    {
        match &self.argument_name {
            Some(name) => Some(name.as_str()),
            None => None,
        }
    }

    /// Whether a call may leave the argument out.
    pub fn has_default(&self) -> (has_default: bool)
        ensures
            has_default == self.has_default,
    {
        self.has_default
    }
}

/// One signature of a registry entry.
#[derive(Debug)]
pub struct SupportedSignature {
    pub args: Vec<SupportedArg>,
}

impl SupportedSignature {
    /// The signature's arguments, the receiver first.
    pub fn args(&self) -> (args: &Vec<SupportedArg>)
        ensures
            args@ == self.args@,
    {
        &self.args
    }
}

/// The signatures registered for one call.
#[derive(Debug)]
pub struct SupportedEntry {
    pub call: SupportedCall,
    pub signatures: Vec<SupportedSignature>,
}

impl Ordered for SupportedEntry {
    type Key = CallKey;

    open spec fn key(&self) -> CallKey {
        self.call.key()
    }

    open spec fn key_before(a: CallKey, b: CallKey) -> bool {
        <SupportedCall as Ordered>::key_before(a, b)
    }

    proof fn key_irreflexive(a: CallKey) {
        <SupportedCall as Ordered>::key_irreflexive(a);
    }

    proof fn key_transitive(a: CallKey, b: CallKey, c: CallKey) {
        <SupportedCall as Ordered>::key_transitive(a, b, c);
    }

    proof fn key_total(a: CallKey, b: CallKey) {
        <SupportedCall as Ordered>::key_total(a, b);
    }
}

impl Keyed for SupportedEntry {
    fn relate(&self, other: &Self) -> (relation: Relation) {
        self.call.relate(&other.call)
    }
}

/// The calls that the accelerator can run, each with its signatures.
#[derive(Debug)]
pub struct SupportedFuncs {
    pub impls: Vec<SupportedEntry>,
}

impl SupportedFuncs {
    /// The entries are sorted by call and no call has two.
    pub open spec fn wf(self) -> bool {
        order::strictly_increasing(self.impls@)
    }

    /// Whether the registry has an entry for a call.
    pub open spec fn has(self, call: CallKey) -> bool {
        order::keys(self.impls@).contains(call)
    }

    /// The signatures of a registered call.
    pub open spec fn at(self, call: CallKey) -> Seq<SupportedSignature> {
        self.impls@[order::keys(self.impls@).index_of(call)].signatures@
    }

    /// Builds a registry; of several entries for one call the first stands.
    pub fn from_impls(impls: Vec<SupportedEntry>) -> (funcs: Self)
        ensures
            funcs.wf(),
            funcs.impls@ == order::distinct_sort(impls@),
    {
        let ghost all = impls@;
        let mut rest = impls;
        let mut reversed: Vec<SupportedEntry> = Vec::new();
        while rest.len() > 0
            invariant
                rest@.len() + reversed@.len() == all.len(),
                rest@ =~= all.take(rest@.len() as int),
                forall|i: int|
                    0 <= i < reversed@.len() ==> #[trigger] reversed@[i] == all[all.len() - 1 - i],
            decreases rest.len(),
        {
            let ghost before = rest@;
            match rest.pop() {
                Some(entry) => {
                    assert(entry == before.last());
                    reversed.push(entry);
                },
                None => {},
            }
        }
        let mut sorted: Vec<SupportedEntry> = Vec::new();
        let ghost mut done: int = 0;
        assert(all.take(0) =~= Seq::<SupportedEntry>::empty());
        while reversed.len() > 0
            invariant
                0 <= done <= all.len(),
                done + reversed@.len() == all.len(),
                forall|i: int|
                    0 <= i < reversed@.len() ==> #[trigger] reversed@[i] == all[all.len() - 1 - i],
                sorted@ == order::distinct_sort(all.take(done)),
            decreases reversed.len(),
        {
            let ghost before = reversed@;
            match reversed.pop() {
                Some(entry) => {
                    proof {
                        assert(entry == before[before.len() - 1]);
                        assert(all.take(done + 1).drop_last() =~= all.take(done));
                        assert(all.take(done + 1).last() == entry);
                        done = done + 1;
                    }
                    order::insert_distinct(&mut sorted, entry);
                },
                None => {},
            }
        }
        assert(all.take(all.len() as int) =~= all);
        proof {
            order::lemma_distinct_sort(all);
        }
        SupportedFuncs { impls: sorted }
    }

    /// How many calls the registry has.
    pub fn len(&self) -> (len: usize)
        ensures
            len == self.impls@.len(),
    {
        self.impls.len()
    }

    /// The signatures registered for a call.
    pub fn signatures(&self, kind: CallKind, name: &str) -> (found: Option<&Vec<SupportedSignature>>)
        requires
            self.wf(),
        ensures
            match found {
                Some(signatures) => self.has(CallKey { kind, name: name@ }) && signatures@
                    == self.at(CallKey { kind, name: name@ }),
                None => !self.has(CallKey { kind, name: name@ }),
            },
    {
        let ghost wanted = CallKey { kind, name: name@ };
        let mut i: usize = 0;
        while i < self.impls.len()
            invariant
                i <= self.impls.len(),
                self.wf(),
                wanted == (CallKey { kind, name: name@ }),
                forall|j: int| 0 <= j < i ==> (#[trigger] self.impls@[j]).key() != wanted,
            decreases self.impls.len() - i,
        {
            let entry = &self.impls[i];
            if entry.call.kind == kind && text::same_text(entry.call.name.as_str(), name) {
                proof {
                    let keys = order::keys(self.impls@);
                    assert(keys[i as int] == wanted);
                    let at = keys.index_of(wanted);
                    assert(keys[at] == wanted);
                    <SupportedEntry as Ordered>::key_irreflexive(wanted);
                    assert(at == i);
                }
                return Some(&entry.signatures);
            }
            i = i + 1;
        }
        None
    }
}

} // verus!
