//! How the registry's signatures for a call are shown to a reader.

use vstd::prelude::*;

use crate::order;
use crate::order::Ordered;
use crate::supported_functions;
use crate::supported_functions::{
    CallKey, CallKind, SupportedArg, SupportedCall, SupportedFuncs, SupportedSignature, SupportedTy,
    TyKind, TyTree,
};
use crate::text;

verus! {

/// How many signatures are shown before the rest is only counted.
pub const DISPLAY_LIMIT: usize = 2;

/// How much work collapsing may take before signatures are shown as they are registered.
pub const MAX_PRESENTATION_WORK: usize = 65536;

// ---------------------------------------------------------------------------------------------
// Types as text
// ---------------------------------------------------------------------------------------------

/// The text of a registry type at whose root `nullable` says whether `None` is accepted.
pub open spec fn tree_text(ty: TyTree, nullable: bool) -> Seq<char>
    decreases ty, 1int,
{
    let display = match ty.kind {
        TyKind::Any => "Any"@,
        TyKind::Bool => "bool"@,
        TyKind::Bytes => "bytes"@,
        TyKind::Class => "class["@ + ty.names[0] + "."@ + ty.names[1] + "]"@,
        TyKind::Counter => "Counter["@ + parts_text(ty.parts) + "]"@,
        TyKind::Date => "date"@,
        TyKind::DateTime => "datetime"@,
        TyKind::Dict => "dict["@ + parts_text(ty.parts) + "]"@,
        TyKind::Float => "float"@,
        TyKind::FrozenSet => "frozenset["@ + parts_text(ty.parts) + "]"@,
        TyKind::Generator => "Generator["@ + parts_text(ty.parts) + "]"@,
        TyKind::HashlibHash => "hashlib.Hash"@,
        TyKind::Int => "int"@,
        TyKind::Iterable => "Iterable["@ + parts_text(ty.parts) + "]"@,
        TyKind::Json => "json"@,
        TyKind::List => "list["@ + parts_text(ty.parts) + "]"@,
        TyKind::Module => "module["@ + ty.names[0] + "]"@,
        TyKind::NoneType => "None"@,
        TyKind::ReMatch => "Match"@,
        TyKind::RePattern => "Pattern"@,
        TyKind::RequestsHttpResponse => "RequestsHttpResponse"@,
        TyKind::SetType => "set["@ + parts_text(ty.parts) + "]"@,
        TyKind::SequenceMatcher => "SequenceMatcher"@,
        TyKind::Str => "str"@,
        TyKind::SubClassOf => "subclass["@ + ty.names[0] + "]"@,
        TyKind::Time => "time"@,
        TyKind::Timedelta => "timedelta"@,
        TyKind::TimeZone => "timezone"@,
        TyKind::Tuple => if ty.variable {
            if ty.parts.len() == 0 {
                "tuple["@ + "Any"@ + ", ...]"@
            } else {
                "tuple["@ + tree_text(ty.parts[0], ty.parts[0].nullable) + ", ...]"@
            }
        } else {
            "tuple["@ + parts_text(ty.parts) + "]"@
        },
        TyKind::Other => ty.names[0],
    };
    if nullable && ty.kind != TyKind::NoneType {
        display + " | None"@
    } else {
        display
    }
}

/// The texts of types, each with its own flag, one after the other.
pub open spec fn parts_text(parts: Seq<TyTree>) -> Seq<char>
    decreases parts, 0int,
{
    if parts.len() == 0 {
        Seq::empty()
    } else if parts.len() == 1 {
        tree_text(parts[0], parts[0].nullable)
    } else {
        parts_text(parts.drop_last()) + ", "@ + tree_text(parts.last(), parts.last().nullable)
    }
}

proof fn lemma_one_part(parts: Seq<TyTree>)
    requires
        parts.len() == 1,
    ensures
        parts_text(parts) == tree_text(parts[0], parts[0].nullable),
{
}

/// The text of a registry type at whose root `nullable` says whether `None` is accepted.
pub fn format_supported_type_with_nullable(ty: &SupportedTy, nullable: bool) -> (display: String)
    ensures
        display@ == tree_text(ty@, nullable),
    decreases ty, 1int,
{
    proof {
        if ty@.parts.len() == 1 {
            lemma_one_part(ty@.parts);
        }
    }
    let mut display;
    match ty {
        SupportedTy::Any { .. } => {
            display = "Any".to_owned();
        },
        SupportedTy::Bool { .. } => {
            display = "bool".to_owned();
        },
        SupportedTy::Bytes { .. } => {
            display = "bytes".to_owned();
        },
        SupportedTy::Class { module, name, .. } => {
            display = "class[".to_owned();
            text::push_text(&mut display, module.as_str());
            text::push_text(&mut display, ".");
            text::push_text(&mut display, name.as_str());
            text::push_text(&mut display, "]");
        },
        SupportedTy::Counter { items, .. } => {
            display = "Counter[".to_owned();
            text::push_text(&mut display, format_supported_type(items).as_str());
            text::push_text(&mut display, "]");
        },
        SupportedTy::Date { .. } => {
            display = "date".to_owned();
        },
        SupportedTy::DateTime { .. } => {
            display = "datetime".to_owned();
        },
        SupportedTy::Dict { key_type, value_type, .. } => {
            display = "dict[".to_owned();
            text::push_text(&mut display, format_supported_type(key_type).as_str());
            text::push_text(&mut display, ", ");
            text::push_text(&mut display, format_supported_type(value_type).as_str());
            text::push_text(&mut display, "]");
            proof {
                let parts = ty@.parts;
                lemma_one_part(parts.drop_last());
                assert(display@ =~= "dict["@ + parts_text(parts) + "]"@);
            }
        },
        SupportedTy::Float { .. } => {
            display = "float".to_owned();
        },
        SupportedTy::FrozenSet { items, .. } => {
            display = "frozenset[".to_owned();
            text::push_text(&mut display, format_supported_type(items).as_str());
            text::push_text(&mut display, "]");
        },
        SupportedTy::Generator { items, .. } => {
            display = "Generator[".to_owned();
            text::push_text(&mut display, format_supported_type(items).as_str());
            text::push_text(&mut display, "]");
        },
        SupportedTy::HashlibHash { .. } => {
            display = "hashlib.Hash".to_owned();
        },
        SupportedTy::Int { .. } => {
            display = "int".to_owned();
        },
        SupportedTy::Iterable { items, .. } => {
            display = "Iterable[".to_owned();
            text::push_text(&mut display, format_supported_type(items).as_str());
            text::push_text(&mut display, "]");
        },
        SupportedTy::Json { .. } => {
            display = "json".to_owned();
        },
        SupportedTy::List { items, .. } => {
            display = "list[".to_owned();
            text::push_text(&mut display, format_supported_type(items).as_str());
            text::push_text(&mut display, "]");
        },
        SupportedTy::Module { name, .. } => {
            display = "module[".to_owned();
            text::push_text(&mut display, name.as_str());
            text::push_text(&mut display, "]");
        },
        SupportedTy::NoneType { .. } => {
            display = "None".to_owned();
        },
        SupportedTy::ReMatch { .. } => {
            display = "Match".to_owned();
        },
        SupportedTy::RePattern { .. } => {
            display = "Pattern".to_owned();
        },
        SupportedTy::RequestsHttpResponse { .. } => {
            display = "RequestsHttpResponse".to_owned();
        },
        SupportedTy::SetType { items, .. } => {
            display = "set[".to_owned();
            text::push_text(&mut display, format_supported_type(items).as_str());
            text::push_text(&mut display, "]");
        },
        SupportedTy::SequenceMatcher { .. } => {
            display = "SequenceMatcher".to_owned();
        },
        SupportedTy::Str { .. } => {
            display = "str".to_owned();
        },
        SupportedTy::SubClassOf { ty_name, .. } => {
            display = "subclass[".to_owned();
            text::push_text(&mut display, ty_name.as_str());
            text::push_text(&mut display, "]");
        },
        SupportedTy::Time { .. } => {
            display = "time".to_owned();
        },
        SupportedTy::Timedelta { .. } => {
            display = "timedelta".to_owned();
        },
        SupportedTy::TimeZone { .. } => {
            display = "timezone".to_owned();
        },
        SupportedTy::Tuple { items, is_variable, .. } => {
            proof {
                supported_functions::lemma_trees(items@);
            }
            display = "tuple[".to_owned();
            if *is_variable {
                if items.len() == 0 {
                    text::push_text(&mut display, "Any");
                } else {
                    text::push_text(&mut display, format_supported_type(&items[0]).as_str());
                }
                text::push_text(&mut display, ", ...]");
            } else {
                text::push_text(&mut display, format_supported_types(items).as_str());
                text::push_text(&mut display, "]");
            }
        },
        SupportedTy::Other { name, .. } => {
            display = name.clone();
        },
    }
    if nullable {
        match ty {
            SupportedTy::NoneType { .. } => {},
            _ => text::push_text(&mut display, " | None"),
        }
    }
    display
}

/// The text of a registry type.
pub fn format_supported_type(ty: &SupportedTy) -> (display: String)
    ensures
        display@ == tree_text(ty@, ty@.nullable),
    decreases ty, 2int,
{
    let nullable = match ty {
        SupportedTy::NoneType { .. } => false,
        _ => ty.accepts_none(),
    };
    format_supported_type_with_nullable(ty, nullable)
}

/// The texts of several registry types, one after the other.
fn format_supported_types(items: &Vec<SupportedTy>) -> (display: String)
    ensures
        display@ == parts_text(supported_functions::trees(items@)),
    decreases items, 0int,
{
    let mut display = String::new();
    let ghost all = supported_functions::trees(items@);
    proof {
        supported_functions::lemma_trees(items@);
        assert(all.take(0) =~= Seq::<TyTree>::empty());
    }
    let mut i: usize = 0;
    while i < items.len()
        invariant
            i <= items.len(),
            all == supported_functions::trees(items@),
            all.len() == items@.len(),
            forall|j: int|
                0 <= j < items@.len() ==> #[trigger] all[j] == supported_functions::tree(items@[j]),
            display@ == parts_text(all.take(i as int)),
        decreases items.len() - i,
    {
        let ghost more = all.take(i + 1);
        proof {
            assert(more.drop_last() =~= all.take(i as int));
            assert(more.last() == all[i as int]);
        }
        if i > 0 {
            text::push_text(&mut display, ", ");
        }
        text::push_text(&mut display, format_supported_type(&items[i]).as_str());
        proof {
            if i == 0 {
                assert(display@ =~= tree_text(more[0], more[0].nullable));
            }
        }
        i = i + 1;
    }
    assert(all.take(all.len() as int) =~= all);
    display
}

// ---------------------------------------------------------------------------------------------
// Signatures as text
// ---------------------------------------------------------------------------------------------

/// What a reader sees of each argument besides its type: its name and whether it has a default.
pub type Metadata = Seq<(Option<Seq<char>>, bool)>;

/// The type of each argument up to whether it accepts `None`; nothing where only `None` fits.
pub type Shape = Seq<Option<TyTree>>;

/// The arguments that a call site writes: a method's receiver is not among them.
pub open spec fn presented(kind: CallKind, signature: SupportedSignature) -> Seq<SupportedArg> {
    if kind == CallKind::Method {
        if signature.args@.len() == 0 {
            Seq::empty()
        } else {
            signature.args@.skip(1)
        }
    } else {
        signature.args@
    }
}

/// The names and defaults of a signature's presented arguments.
pub open spec fn metadata(kind: CallKind, signature: SupportedSignature) -> Metadata {
    let args = presented(kind, signature);
    Seq::new(args.len(), |k: int| (args[k].label(), args[k].has_default))
}

/// An argument type up to whether it accepts `None`.
pub open spec fn ty_shape(ty: SupportedTy) -> Option<TyTree> {
    if ty is NoneType {
        None
    } else {
        Some(ty@.shape())
    }
}

/// The types of a signature's presented arguments up to whether they accept `None`.
pub open spec fn shape(kind: CallKind, signature: SupportedSignature) -> Shape {
    let args = presented(kind, signature);
    Seq::new(args.len(), |k: int| ty_shape(args[k].ty))
}

/// One argument: its name, its type and a mark for a default.
pub open spec fn arg_text(label: Option<Seq<char>>, has_default: bool, ty: Seq<char>) -> Seq<char> {
    let named = match label {
        Some(name) => name + ": "@ + ty,
        None => ty,
    };
    if has_default {
        named + " = ..."@
    } else {
        named
    }
}

/// A call name with its arguments.
pub open spec fn call_text(name: Seq<char>, args: Seq<Seq<char>>) -> Seq<char> {
    name + "("@ + text::joined(args, ", "@) + ")"@
}

/// A signature as it is registered.
pub open spec fn signature_text(
    kind: CallKind,
    name: Seq<char>,
    signature: SupportedSignature,
) -> Seq<char> {
    let args = presented(kind, signature);
    call_text(
        name,
        Seq::new(
            args.len(),
            |k: int|
                arg_text(
                    args[k].label(),
                    args[k].has_default,
                    tree_text(args[k].ty@, args[k].ty@.nullable),
                ),
        ),
    )
}

/// One argument type of a collapsed signature.
pub open spec fn collapsed_ty_text(ty: Option<TyTree>, nullable: bool) -> Seq<char> {
    match ty {
        Some(ty) => tree_text(ty, nullable),
        None => "None"@,
    }
}

/// A signature that stands for several: `axes` says which arguments accept `None`.
pub open spec fn collapsed_text(
    name: Seq<char>,
    meta: Metadata,
    shape: Shape,
    axes: Seq<bool>,
) -> Seq<char> {
    call_text(
        name,
        Seq::new(
            meta.len(),
            |k: int| arg_text(meta[k].0, meta[k].1, collapsed_ty_text(shape[k], axes[k])),
        ),
    )
}

/// The presented arguments of a signature.
pub fn presented_args(kind: CallKind, signature: &SupportedSignature) -> (args: &[SupportedArg])
    ensures
        args@ == presented(kind, *signature),
{
    let args = signature.args.as_slice();
    if kind == CallKind::Method && args.len() > 0 {
        let rest = vstd::slice::slice_subrange(args, 1, args.len());
        assert(rest@ =~= signature.args@.skip(1));
        rest
    } else {
        args
    }
}

/// One argument: its name, its type and a mark for a default.
pub fn format_arg(ty: String, arg: &SupportedArg) -> (display: String)
    ensures
        display@ == arg_text(arg.label(), arg.has_default, ty@),
{
    let mut display = match arg.argument_name() {
        Some(name) => {
            let mut named = name.to_owned();
            text::push_text(&mut named, ": ");
            text::push_text(&mut named, ty.as_str());
            named
        },
        None => ty,
    };
    if arg.has_default() {
        text::push_text(&mut display, " = ...");
    }
    display
}

/// A call name with its arguments.
fn format_call(name: &str, args: &Vec<String>) -> (display: String)
    ensures
        display@ == call_text(name@, order::keys(args@)),
{
    let mut display = name.to_owned();
    text::push_text(&mut display, "(");
    text::push_text(&mut display, order::join_texts(args, ", ").as_str());
    text::push_text(&mut display, ")");
    display
}

/// A signature as it is registered.
pub fn format_signature(call: &SupportedCall, signature: &SupportedSignature) -> (display: String)
    ensures
        display@ == signature_text(call.kind, call.name@, *signature),
{
    let args = presented_args(call.kind, signature);
    let mut texts: Vec<String> = Vec::new();
    let ghost wanted = Seq::new(
        args@.len(),
        |k: int|
            arg_text(
                args@[k].label(),
                args@[k].has_default,
                tree_text(args@[k].ty@, args@[k].ty@.nullable),
            ),
    );
    let mut i: usize = 0;
    while i < args.len()
        invariant
            i <= args.len(),
            texts@.len() == i,
            wanted.len() == args@.len(),
            forall|k: int|
                0 <= k < args@.len() ==> #[trigger] wanted[k] == arg_text(
                    args@[k].label(),
                    args@[k].has_default,
                    tree_text(args@[k].ty@, args@[k].ty@.nullable),
                ),
            forall|k: int| 0 <= k < i ==> (#[trigger] texts@[k])@ == wanted[k],
        decreases args.len() - i,
    {
        let arg = &args[i];
        texts.push(format_arg(format_supported_type(arg.ty()), arg));
        i = i + 1;
    }
    assert(order::keys(texts@) =~= wanted);
    format_call(call.name(), &texts)
}

proof fn lemma_text_of_shape(ty: TyTree, nullable: bool)
    ensures
        tree_text(ty, nullable) == tree_text(ty.shape(), nullable),
{
}

/// A signature that stands for several: `nullable` says which arguments accept `None`.
pub fn format_collapsed_signature(
    call: &SupportedCall,
    metadata: &SupportedSignature,
    shape: &SupportedSignature,
    nullable: &Vec<bool>,
) -> (display: String)
    requires
        presented(call.kind, *metadata).len() == presented(call.kind, *shape).len(),
        nullable@.len() == presented(call.kind, *shape).len(),
    ensures
        display@ == collapsed_text(
            call.name@,
            self::metadata(call.kind, *metadata),
            self::shape(call.kind, *shape),
            nullable@,
        ),
{
    let args = presented_args(call.kind, metadata);
    let shapes = presented_args(call.kind, shape);
    let mut texts: Vec<String> = Vec::new();
    let ghost meta = self::metadata(call.kind, *metadata);
    let ghost form = self::shape(call.kind, *shape);
    let ghost wanted = Seq::new(
        meta.len(),
        |k: int| arg_text(meta[k].0, meta[k].1, collapsed_ty_text(form[k], nullable@[k])),
    );
    let mut i: usize = 0;
    while i < args.len()
        invariant
            i <= args.len(),
            args@ == presented(call.kind, *metadata),
            shapes@ == presented(call.kind, *shape),
            args@.len() == shapes@.len(),
            nullable@.len() == args@.len(),
            meta == self::metadata(call.kind, *metadata),
            form == self::shape(call.kind, *shape),
            texts@.len() == i,
            wanted.len() == args@.len(),
            forall|k: int|
                0 <= k < args@.len() ==> #[trigger] wanted[k] == arg_text(
                    meta[k].0,
                    meta[k].1,
                    collapsed_ty_text(form[k], nullable@[k]),
                ),
            forall|k: int| 0 <= k < i ==> (#[trigger] texts@[k])@ == wanted[k],
        decreases args.len() - i,
    {
        let ty = shapes[i].ty();
        proof {
            lemma_text_of_shape(ty@, nullable@[i as int]);
        }
        texts.push(format_arg(format_supported_type_with_nullable(ty, nullable[i]), &args[i]));
        i = i + 1;
    }
    assert(order::keys(texts@) =~= wanted);
    format_call(call.name(), &texts)
}

// ---------------------------------------------------------------------------------------------
// Collapsing signatures that differ in what accepts `None`
// ---------------------------------------------------------------------------------------------

/// A signature of the pool whose presented arguments have these names and defaults.
pub open spec fn in_group(
    kind: CallKind,
    pool: Set<SupportedSignature>,
    meta: Metadata,
    signature: SupportedSignature,
) -> bool {
    pool.contains(signature) && metadata(kind, signature) == meta
}

/// Every argument of the signature takes either only `None` or what the shape takes there.
pub open spec fn fits(kind: CallKind, signature: SupportedSignature, form: Shape) -> bool {
    forall|k: int|
        0 <= k < form.len() ==> (#[trigger] shape(kind, signature)[k] is None || shape(
            kind,
            signature,
        )[k] == form[k])
}

/// A signature of the group that fits the shape.
pub open spec fn compatible(
    kind: CallKind,
    pool: Set<SupportedSignature>,
    meta: Metadata,
    form: Shape,
    signature: SupportedSignature,
) -> bool {
    in_group(kind, pool, meta, signature) && fits(kind, signature, form)
}

/// Whether some compatible signature accepts `None` for an argument.
pub open spec fn is_nullable(
    kind: CallKind,
    pool: Set<SupportedSignature>,
    meta: Metadata,
    form: Shape,
    k: int,
) -> bool {
    form[k] is Some && exists|signature: SupportedSignature| #[trigger]
        compatible(kind, pool, meta, form, signature) && presented(
            kind,
            signature,
        )[k].ty.takes_none()
}

/// For each argument of a shape, whether some compatible signature accepts `None` there.
pub open spec fn nullable_axes(
    kind: CallKind,
    pool: Set<SupportedSignature>,
    meta: Metadata,
    form: Shape,
) -> Seq<bool> {
    Seq::new(meta.len(), |k: int| is_nullable(kind, pool, meta, form, k))
}

/// A choice of the nullable arguments that are `None`.
pub open spec fn within(choice: Seq<bool>, axes: Seq<bool>) -> bool {
    choice.len() == axes.len() && forall|k: int|
        0 <= k < choice.len() && #[trigger] choice[k] ==> axes[k]
}

/// The signature takes `None` for an argument where it is chosen, and the shape's type elsewhere.
pub open spec fn serves_at(
    kind: CallKind,
    signature: SupportedSignature,
    form: Shape,
    choice: Seq<bool>,
    k: int,
) -> bool {
    if choice[k] || form[k] is None {
        presented(kind, signature)[k].ty.takes_none()
    } else {
        shape(kind, signature)[k] == form[k]
    }
}

/// The signature takes a call whose arguments are `None` exactly where chosen.
pub open spec fn serves(
    kind: CallKind,
    signature: SupportedSignature,
    form: Shape,
    choice: Seq<bool>,
) -> bool {
    forall|k: int|
        0 <= k < form.len() ==> #[trigger] serves_at(kind, signature, form, choice, k)
}

/// Some compatible signature takes the choice.
pub open spec fn served(
    kind: CallKind,
    pool: Set<SupportedSignature>,
    meta: Metadata,
    form: Shape,
    choice: Seq<bool>,
) -> bool {
    exists|signature: SupportedSignature| #[trigger]
        compatible(kind, pool, meta, form, signature) && serves(kind, signature, form, choice)
}

/// Every choice of `None` arguments is taken by a compatible signature.
pub open spec fn covers(
    kind: CallKind,
    pool: Set<SupportedSignature>,
    meta: Metadata,
    form: Shape,
) -> bool {
    forall|choice: Seq<bool>| #[trigger]
        within(choice, nullable_axes(kind, pool, meta, form)) ==> served(
            kind,
            pool,
            meta,
            form,
            choice,
        )
}

/// Whether some signature of the group takes something besides `None` for an argument.
pub open spec fn has_non_none(
    kind: CallKind,
    pool: Set<SupportedSignature>,
    meta: Metadata,
    k: int,
) -> bool {
    exists|signature: SupportedSignature| #[trigger]
        in_group(kind, pool, meta, signature) && shape(kind, signature)[k] is Some
}

/// The shape says more than `None` wherever some signature of the group does.
pub open spec fn is_full(
    kind: CallKind,
    pool: Set<SupportedSignature>,
    meta: Metadata,
    form: Shape,
) -> bool {
    forall|k: int| 0 <= k < meta.len() && #[trigger] has_non_none(kind, pool, meta, k) ==> form[k]
        is Some
}

/// The full shapes of the signatures of a group.
pub open spec fn full_shapes(
    kind: CallKind,
    pool: Set<SupportedSignature>,
    meta: Metadata,
) -> Set<Shape> {
    Set::new(
        |form: Shape|
            is_full(kind, pool, meta, form) && exists|signature: SupportedSignature| #[trigger]
                in_group(kind, pool, meta, signature) && shape(kind, signature) == form,
    )
}

/// Whether one display can stand for all signatures that fit the shape.
pub open spec fn collapses(
    kind: CallKind,
    pool: Set<SupportedSignature>,
    meta: Metadata,
    form: Shape,
) -> bool {
    &&& full_shapes(kind, pool, meta).contains(form)
    &&& nullable_axes(kind, pool, meta, form).contains(true)
    &&& covers(kind, pool, meta, form)
}

/// Whether a collapsed display stands for the signature.
pub open spec fn is_covered(
    kind: CallKind,
    pool: Set<SupportedSignature>,
    signature: SupportedSignature,
) -> bool {
    exists|form: Shape| #[trigger]
        collapses(kind, pool, metadata(kind, signature), form) && fits(kind, signature, form)
}

/// The displays of one group of a call's signatures.
pub open spec fn group_shows(
    kind: CallKind,
    name: Seq<char>,
    pool: Set<SupportedSignature>,
    meta: Metadata,
    display: Seq<char>,
) -> bool {
    ||| exists|form: Shape| #[trigger]
        collapses(kind, pool, meta, form) && display == collapsed_text(
            name,
            meta,
            form,
            nullable_axes(kind, pool, meta, form),
        )
    ||| exists|signature: SupportedSignature| #[trigger]
        in_group(kind, pool, meta, signature) && !is_covered(kind, pool, signature) && display
            == signature_text(kind, name, signature)
}

/// The displays of a call's signatures: one for every collapse, one for every other signature.
pub open spec fn call_shows(
    kind: CallKind,
    name: Seq<char>,
    pool: Set<SupportedSignature>,
    display: Seq<char>,
) -> bool {
    exists|meta: Metadata| #[trigger] group_shows(kind, name, pool, meta, display)
}

/// Whether the signature takes only `None`.
pub fn is_none(ty: &SupportedTy) -> (none: bool)
    ensures
        none == (ty_shape(*ty) is None),
{
    match ty {
        SupportedTy::NoneType { .. } => true,
        _ => false,
    }
}

/// Whether two types are the same up to whether they accept `None`, and more than `None`.
pub fn same_non_none_type(left: &SupportedTy, right: &SupportedTy) -> (same: bool)
    ensures
        same == (!(left is NoneType) && left@.shape() == right@.shape()),
        same == (ty_shape(*left) is Some && ty_shape(*left) == ty_shape(*right)),
{
    proof {
        assert(left@.shape().kind == left@.kind);
        assert(right@.shape().kind == right@.kind);
    }
    !is_none(left) && supported_functions::same_shape(left, right)
}

/// Whether two signatures present arguments with the same names and defaults.
pub fn same_argument_metadata(
    kind: CallKind,
    left: &SupportedSignature,
    right: &SupportedSignature,
) -> (same: bool)
    ensures
        same == (metadata(kind, *left) == metadata(kind, *right)),
{
    let lefts = presented_args(kind, left);
    let rights = presented_args(kind, right);
    let ghost a = metadata(kind, *left);
    let ghost b = metadata(kind, *right);
    if lefts.len() != rights.len() {
        assert(a.len() != b.len());
        return false;
    }
    let mut i: usize = 0;
    while i < lefts.len()
        invariant
            i <= lefts.len(),
            lefts@ == presented(kind, *left),
            rights@ == presented(kind, *right),
            lefts@.len() == rights@.len(),
            a == metadata(kind, *left),
            b == metadata(kind, *right),
            forall|k: int| 0 <= k < i ==> #[trigger] a[k] == b[k],
        decreases lefts.len() - i,
    {
        let same_name = match (lefts[i].argument_name(), rights[i].argument_name()) {
            (Some(x), Some(y)) => text::same_text(x, y),
            (None, None) => true,
            _ => false,
        };
        if !same_name || lefts[i].has_default() != rights[i].has_default() {
            assert(a[i as int] != b[i as int]);
            return false;
        }
        assert(a[i as int] == b[i as int]);
        i = i + 1;
    }
    assert(a =~= b);
    true
}

/// Whether two signatures with equally many presented arguments have the same shape.
pub fn same_non_none_shape(
    kind: CallKind,
    left: &SupportedSignature,
    right: &SupportedSignature,
) -> (same: bool)
    requires
        presented(kind, *left).len() == presented(kind, *right).len(),
    ensures
        same == (shape(kind, *left) == shape(kind, *right)),
{
    let lefts = presented_args(kind, left);
    let rights = presented_args(kind, right);
    let ghost a = shape(kind, *left);
    let ghost b = shape(kind, *right);
    let mut i: usize = 0;
    while i < lefts.len()
        invariant
            i <= lefts.len(),
            lefts@ == presented(kind, *left),
            rights@ == presented(kind, *right),
            lefts@.len() == rights@.len(),
            a == shape(kind, *left),
            b == shape(kind, *right),
            forall|k: int| 0 <= k < i ==> #[trigger] a[k] == b[k],
        decreases lefts.len() - i,
    {
        let x = lefts[i].ty();
        let y = rights[i].ty();
        assert(a[i as int] == ty_shape(*x) && b[i as int] == ty_shape(*y));
        if !((is_none(x) && is_none(y)) || same_non_none_type(x, y)) {
            return false;
        }
        i = i + 1;
    }
    assert(a =~= b);
    true
}

/// Whether a signature fits the shape of another with equally many presented arguments.
pub fn signature_matches_shape(
    kind: CallKind,
    signature: &SupportedSignature,
    form: &SupportedSignature,
) -> (matches: bool)
    requires
        presented(kind, *signature).len() == presented(kind, *form).len(),
    ensures
        matches == fits(kind, *signature, shape(kind, *form)),
{
    let args = presented_args(kind, signature);
    let expected = presented_args(kind, form);
    let ghost a = shape(kind, *signature);
    let ghost b = shape(kind, *form);
    let mut i: usize = 0;
    while i < args.len()
        invariant
            i <= args.len(),
            args@ == presented(kind, *signature),
            expected@ == presented(kind, *form),
            args@.len() == expected@.len(),
            a == shape(kind, *signature),
            b == shape(kind, *form),
            forall|k: int| 0 <= k < i ==> #[trigger] a[k] is None || a[k] == b[k],
        decreases args.len() - i,
    {
        let x = args[i].ty();
        let y = expected[i].ty();
        assert(a[i as int] == ty_shape(*x) && b[i as int] == ty_shape(*y));
        if !(is_none(x) || (!is_none(y) && same_non_none_type(x, y))) {
            return false;
        }
        i = i + 1;
    }
    true
}

/// Whether the signature takes a call whose arguments are `None` exactly where chosen.
fn signature_serves(
    kind: CallKind,
    signature: &SupportedSignature,
    form: &SupportedSignature,
    choice: &Vec<bool>,
) -> (taken: bool)
    requires
        presented(kind, *signature).len() == presented(kind, *form).len(),
        choice@.len() == presented(kind, *form).len(),
    ensures
        taken == serves(kind, *signature, shape(kind, *form), choice@),
{
    let args = presented_args(kind, signature);
    let expected = presented_args(kind, form);
    let ghost a = shape(kind, *signature);
    let ghost b = shape(kind, *form);
    let mut i: usize = 0;
    while i < args.len()
        invariant
            i <= args.len(),
            args@ == presented(kind, *signature),
            expected@ == presented(kind, *form),
            args@.len() == expected@.len(),
            choice@.len() == args@.len(),
            a == shape(kind, *signature),
            b == shape(kind, *form),
            forall|k: int|
                0 <= k < i ==> #[trigger] serves_at(kind, *signature, b, choice@, k),
        decreases args.len() - i,
    {
        let x = args[i].ty();
        let y = expected[i].ty();
        assert(a[i as int] == ty_shape(*x) && b[i as int] == ty_shape(*y));
        let fine = if choice[i] || is_none(y) {
            x.accepts_none()
        } else {
            same_non_none_type(x, y)
        };
        assert(fine == serves_at(kind, *signature, b, choice@, i as int));
        if !fine {
            return false;
        }
        i = i + 1;
    }
    true
}

// ---------------------------------------------------------------------------------------------
// The work that collapsing takes
// ---------------------------------------------------------------------------------------------

/// The larger of two numbers.
pub open spec fn larger(a: nat, b: nat) -> nat {
    if a < b {
        b
    } else {
        a
    }
}

/// How many signatures of a list satisfy a condition.
pub open spec fn count_where(
    signatures: Seq<SupportedSignature>,
    condition: spec_fn(SupportedSignature) -> bool,
) -> nat
    decreases signatures.len(),
{
    if signatures.len() == 0 {
        0
    } else {
        count_where(signatures.drop_last(), condition) + if condition(signatures.last()) {
            1nat
        } else {
            0
        }
    }
}

/// How many entries of a list are true.
pub open spec fn count_true(axes: Seq<bool>) -> nat
    decreases axes.len(),
{
    if axes.len() == 0 {
        0
    } else {
        count_true(axes.drop_last()) + if axes.last() {
            1nat
        } else {
            0
        }
    }
}

/// The sum of a measure over a finite set.
pub open spec fn sum_over<K>(members: Set<K>, measure: spec_fn(K) -> nat) -> nat {
    members.fold(0nat, |sum: nat, member: K| sum + measure(member))
}

proof fn lemma_sum_empty<K>(measure: spec_fn(K) -> nat)
    ensures
        sum_over(Set::<K>::empty(), measure) == 0,
{
    vstd::set::fold::lemma_fold_empty::<K, nat>(0nat, |sum: nat, member: K| sum + measure(member));
}

proof fn lemma_sum_insert<K>(members: Set<K>, measure: spec_fn(K) -> nat, member: K)
    requires
        members.finite(),
        !members.contains(member),
    ensures
        sum_over(members.insert(member), measure) == sum_over(members, measure) + measure(member),
{
    let step = |sum: nat, member: K| sum + measure(member);
    assert(vstd::set::fold::is_fun_commutative(step));
    vstd::set::fold::lemma_fold_insert::<K, nat>(members, 0nat, step, member);
}

/// The most presented arguments of any signature.
pub open spec fn max_arity(kind: CallKind, signatures: Seq<SupportedSignature>) -> nat
    decreases signatures.len(),
{
    if signatures.len() == 0 {
        0
    } else {
        larger(
            max_arity(kind, signatures.drop_last()),
            presented(kind, signatures.last()).len(),
        )
    }
}

/// The work of checking whether one shape collapses.
pub open spec fn shape_work(
    kind: CallKind,
    signatures: Seq<SupportedSignature>,
    meta: Metadata,
    form: Shape,
) -> nat {
    let pool = signatures.to_set();
    let axes = nullable_axes(kind, pool, meta, form);
    if axes.contains(true) {
        vstd::arithmetic::power2::pow2(count_true(axes)) * count_where(
            signatures,
            of_shape(kind, pool, meta, form),
        ) * larger(meta.len(), 1)
    } else {
        0
    }
}

/// The work of each shape of a group.
pub open spec fn shape_measure(
    kind: CallKind,
    signatures: Seq<SupportedSignature>,
    meta: Metadata,
) -> spec_fn(Shape) -> nat {
    |form: Shape| shape_work(kind, signatures, meta, form)
}

/// The work of each group of a call.
pub open spec fn group_measure(
    kind: CallKind,
    signatures: Seq<SupportedSignature>,
) -> spec_fn(Metadata) -> nat {
    |meta: Metadata| group_work(kind, signatures, meta)
}

/// The work of presenting one group of signatures.
pub open spec fn group_work(
    kind: CallKind,
    signatures: Seq<SupportedSignature>,
    meta: Metadata,
) -> nat {
    let pool = signatures.to_set();
    let size = count_where(signatures, of_group(kind, meta));
    let forms = full_shapes(kind, pool, meta);
    size * size * larger(meta.len(), 1) + forms.len() * size * larger(meta.len(), 1) + sum_over(
        forms,
        shape_measure(kind, signatures, meta),
    )
}

/// The argument names and defaults that occur among signatures.
pub open spec fn metadata_of(
    kind: CallKind,
    signatures: Seq<SupportedSignature>,
) -> Set<Metadata> {
    Set::new(
        |meta: Metadata|
            exists|signature: SupportedSignature| #[trigger]
                signatures.contains(signature) && metadata(kind, signature) == meta,
    )
}

/// The work of presenting a call's signatures.
pub open spec fn call_work(kind: CallKind, signatures: Seq<SupportedSignature>) -> nat {
    signatures.len() * signatures.len() * larger(max_arity(kind, signatures), 1) + sum_over(
        metadata_of(kind, signatures),
        group_measure(kind, signatures),
    )
}

/// Work left before signatures are shown as they are registered.
#[derive(Debug)]
pub struct PresentationBudget {
    pub remaining: usize,
}

/// Collapsing would take more work than is allowed.
#[derive(Clone, Copy, Debug, PartialEq, Eq, Structural)]
pub struct BudgetExceeded;

impl PresentationBudget {
    /// The whole allowance.
    pub fn new() -> (budget: Self)
        ensures
            budget.remaining == MAX_PRESENTATION_WORK,
    {
        PresentationBudget { remaining: MAX_PRESENTATION_WORK }
    }

    /// Takes the product of some factors from the allowance, if it has as much and none of the
    /// products on the way is too large to be counted. Otherwise the allowance stays as it is.
    pub fn spend(&mut self, factors: &Vec<usize>) -> (spent: Result<(), BudgetExceeded>)
        ensures
            spent is Ok <==> countable(factors@) && product(factors@) <= old(self).remaining,
            final(self).remaining == if spent is Ok {
                old(self).remaining - product(factors@)
            } else {
                old(self).remaining as int
            },
    {
        let mut amount: usize = 1;
        let mut i: usize = 0;
        assert(factors@.take(0) =~= Seq::<usize>::empty());
        while i < factors.len()
            invariant
                i <= factors@.len(),
                amount == product(factors@.take(i as int)),
                countable(factors@.take(i as int)),
                self.remaining == old(self).remaining,
            decreases factors@.len() - i,
        {
            proof {
                let next = factors@.take(i as int + 1);
                assert(next.drop_last() =~= factors@.take(i as int));
                assert(next.last() == factors@[i as int]);
                lemma_countable(factors@, i as int + 1);
            }
            match amount.checked_mul(factors[i]) {
                Some(next) => {
                    amount = next;
                },
                None => {
                    return Err(BudgetExceeded);
                },
            }
            i += 1;
        }
        assert(factors@.take(i as int) =~= factors@);
        if amount <= self.remaining {
            self.remaining = self.remaining - amount;
            Ok(())
        } else {
            Err(BudgetExceeded)
        }
    }
}

/// The product of factors; one where there are none.
pub open spec fn product(factors: Seq<usize>) -> int
    decreases factors.len(),
{
    if factors.len() == 0 {
        1
    } else {
        product(factors.drop_last()) * factors.last()
    }
}

/// Whether the product of the factors and the products on the way to it can be counted.
pub open spec fn countable(factors: Seq<usize>) -> bool
    decreases factors.len(),
{
    product(factors) <= usize::MAX && (factors.len() == 0 || countable(factors.drop_last()))
}

/// What begins a list of factors that is countable is countable too.
proof fn lemma_countable(factors: Seq<usize>, at: int)
    requires
        0 <= at <= factors.len(),
    ensures
        countable(factors) ==> countable(factors.take(at)),
    decreases factors.len(),
{
    if at < factors.len() {
        assert(factors.drop_last().take(at) =~= factors.take(at));
        lemma_countable(factors.drop_last(), at);
    } else {
        assert(factors.take(at) =~= factors);
    }
}

/// Three factors, the last of which is not zero, are taken exactly where their product is within
/// the allowance.
proof fn lemma_three_factors(a: usize, b: usize, c: usize, remaining: usize)
    requires
        c >= 1,
    ensures
        product(seq![a, b, c]) == a * b * c,
        countable(seq![a, b, c]) && a * b * c <= remaining <==> a * b * c <= remaining,
{
    let all = seq![a, b, c];
    assert(all.drop_last() =~= seq![a, b]);
    assert(seq![a, b].drop_last() =~= seq![a]);
    assert(seq![a].drop_last() =~= Seq::<usize>::empty());
    assert(product(seq![a]) == product(Seq::<usize>::empty()) * a);
    assert(product(seq![a, b]) == product(seq![a]) * b);
    assert(product(all) == product(seq![a, b]) * c);
    assert(a * b <= a * b * c) by (nonlinear_arith)
        requires
            0 <= a,
            0 <= b,
            c >= 1,
    ;
    assert(countable(Seq::<usize>::empty()));
    assert(countable(seq![a]));
    if a * b * c <= remaining {
        assert(countable(seq![a, b]));
        assert(countable(all));
    }
}

/// Takes the product of three factors from the allowance.
fn spend_product(budget: &mut PresentationBudget, a: usize, b: usize, c: usize) -> (spent: Result<
    (),
    BudgetExceeded,
>)
    requires
        c >= 1,
    ensures
        spent is Ok <==> a * b * c <= old(budget).remaining,
        final(budget).remaining == if spent is Ok {
            old(budget).remaining - a * b * c
        } else {
            old(budget).remaining as int
        },
{
    let factors: Vec<usize> = vec![a, b, c];
    proof {
        assert(factors@ =~= seq![a, b, c]);
        lemma_three_factors(a, b, c, budget.remaining);
    }
    budget.spend(&factors)
}

// ---------------------------------------------------------------------------------------------
// Collapsing
// ---------------------------------------------------------------------------------------------

/// The positions of the signatures that satisfy a condition.
pub open spec fn lists(
    signatures: Seq<SupportedSignature>,
    condition: spec_fn(SupportedSignature) -> bool,
    positions: Seq<usize>,
) -> bool {
    &&& positions.len() == count_where(signatures, condition)
    &&& forall|m: int|
        0 <= m < positions.len() ==> #[trigger] positions[m] < signatures.len() && condition(
            signatures[positions[m] as int],
        )
    &&& forall|i: int|
        0 <= i < signatures.len() && condition(#[trigger] signatures[i]) ==> exists|m: int|
            0 <= m < positions.len() && #[trigger] positions[m] == i
}

/// The condition of belonging to a group.
pub open spec fn of_group(kind: CallKind, meta: Metadata) -> spec_fn(SupportedSignature) -> bool {
    |signature: SupportedSignature| metadata(kind, signature) == meta
}

/// The condition of fitting a shape within a group.
pub open spec fn of_shape(
    kind: CallKind,
    pool: Set<SupportedSignature>,
    meta: Metadata,
    form: Shape,
) -> spec_fn(SupportedSignature) -> bool {
    |signature: SupportedSignature| compatible(kind, pool, meta, form, signature)
}

/// Every choice that begins as given is taken by a compatible signature.
spec fn covers_from(
    kind: CallKind,
    pool: Set<SupportedSignature>,
    meta: Metadata,
    form: Shape,
    axes: Seq<bool>,
    begin: Seq<bool>,
) -> bool {
    forall|choice: Seq<bool>| #[trigger]
        within(choice, axes) && begin.is_prefix_of(choice) ==> served(
            kind,
            pool,
            meta,
            form,
            choice,
        )
}

/// Whether every choice that begins as given is taken by a compatible signature.
fn extends_to_cover(
    kind: CallKind,
    signatures: &Vec<SupportedSignature>,
    form: usize,
    nullable: &Vec<bool>,
    fitting: &Vec<usize>,
    begin: &mut Vec<bool>,
) -> (covered: bool)
    requires
        form < signatures@.len(),
        nullable@.len() == presented(kind, signatures@[form as int]).len(),
        old(begin)@.len() <= nullable@.len(),
        forall|k: int| 0 <= k < old(begin)@.len() && #[trigger] old(begin)@[k] ==> nullable@[k],
        lists(
            signatures@,
            of_shape(
                kind,
                signatures@.to_set(),
                metadata(kind, signatures@[form as int]),
                shape(kind, signatures@[form as int]),
            ),
            fitting@,
        ),
    ensures
        final(begin)@ == old(begin)@,
        covered == covers_from(
            kind,
            signatures@.to_set(),
            metadata(kind, signatures@[form as int]),
            shape(kind, signatures@[form as int]),
            nullable@,
            old(begin)@,
        ),
    decreases nullable@.len() - old(begin)@.len(),
{
    let ghost pool = signatures@.to_set();
    let ghost meta = metadata(kind, signatures@[form as int]);
    let ghost outline = shape(kind, signatures@[form as int]);
    let ghost start = begin@;
    if begin.len() == nullable.len() {
        assert(within(start, nullable@));
        let mut i: usize = 0;
        while i < fitting.len()
            invariant
                i <= fitting.len(),
                begin@ == start,
                form < signatures@.len(),
                start.len() == nullable@.len(),
                nullable@.len() == presented(kind, signatures@[form as int]).len(),
                pool == signatures@.to_set(),
                meta == metadata(kind, signatures@[form as int]),
                outline == shape(kind, signatures@[form as int]),
                lists(signatures@, of_shape(kind, pool, meta, outline), fitting@),
                forall|m: int|
                    0 <= m < i ==> !serves(
                        kind,
                        signatures@[#[trigger] fitting@[m] as int],
                        outline,
                        start,
                    ),
            decreases fitting.len() - i,
        {
            let at = fitting[i];
            let signature = &signatures[at];
            proof {
                assert(of_shape(kind, pool, meta, outline)(*signature));
                assert(metadata(kind, *signature).len() == meta.len());
            }
            if signature_serves(kind, signature, &signatures[form], begin) {
                proof {
                    assert(compatible(kind, pool, meta, outline, *signature));
                    assert(served(kind, pool, meta, outline, start));
                    assert forall|choice: Seq<bool>| #[trigger]
                        within(choice, nullable@) && start.is_prefix_of(choice) implies served(
                        kind,
                        pool,
                        meta,
                        outline,
                        choice,
                    ) by {
                        assert(choice =~= start);
                    }
                }
                return true;
            }
            i = i + 1;
        }
        proof {
            assert(!served(kind, pool, meta, outline, start)) by {
                if served(kind, pool, meta, outline, start) {
                    let signature = choose|signature: SupportedSignature| #[trigger]
                        compatible(kind, pool, meta, outline, signature) && serves(
                            kind,
                            signature,
                            outline,
                            start,
                        );
                    let at = choose|at: int|
                        0 <= at < signatures@.len() && signatures@[at] == signature;
                    assert(of_shape(kind, pool, meta, outline)(signatures@[at]));
                    let m = choose|m: int| 0 <= m < fitting@.len() && #[trigger] fitting@[m] == at;
                    assert(!serves(kind, signatures@[fitting@[m] as int], outline, start));
                }
            }
            assert(start.is_prefix_of(start)) by {
                assert(start.subrange(0, start.len() as int) =~= start);
            }
        }
        return false;
    }
    begin.push(false);
    let without = extends_to_cover(kind, signatures, form, nullable, fitting, begin);
    begin.pop();
    assert(begin@ =~= start);
    let axis = begin.len();
    if !without {
        proof {
            let choice = choose|choice: Seq<bool>| #[trigger]
                within(choice, nullable@) && start.push(false).is_prefix_of(choice) && !served(
                    kind,
                    pool,
                    meta,
                    outline,
                    choice,
                );
            lemma_prefix_shrinks(start, false, choice);
        }
        return false;
    }
    if nullable[axis] {
        begin.push(true);
        let with = extends_to_cover(kind, signatures, form, nullable, fitting, begin);
        begin.pop();
        assert(begin@ =~= start);
        proof {
            if !with {
                let choice = choose|choice: Seq<bool>| #[trigger]
                    within(choice, nullable@) && start.push(true).is_prefix_of(choice) && !served(
                        kind,
                        pool,
                        meta,
                        outline,
                        choice,
                    );
                lemma_prefix_shrinks(start, true, choice);
            } else {
                assert forall|choice: Seq<bool>| #[trigger]
                    within(choice, nullable@) && start.is_prefix_of(choice) implies served(
                    kind,
                    pool,
                    meta,
                    outline,
                    choice,
                ) by {
                    lemma_prefix_grows(start, choice);
                }
            }
        }
        return with;
    }
    proof {
        assert forall|choice: Seq<bool>| #[trigger]
            within(choice, nullable@) && start.is_prefix_of(choice) implies served(
            kind,
            pool,
            meta,
            outline,
            choice,
        ) by {
            lemma_prefix_grows(start, choice);
            assert(!choice[axis as int]);
        }
    }
    true
}

proof fn lemma_prefix_shrinks(start: Seq<bool>, next: bool, choice: Seq<bool>)
    requires
        start.push(next).is_prefix_of(choice),
    ensures
        start.is_prefix_of(choice),
{
    assert(start =~= choice.subrange(0, start.len() as int)) by {
        assert forall|k: int| 0 <= k < start.len() implies start[k] == choice[k] by {
            assert(start.push(next)[k] == choice.subrange(0, (start.len() + 1) as int)[k]);
        }
    }
}

proof fn lemma_prefix_grows(start: Seq<bool>, choice: Seq<bool>)
    requires
        start.is_prefix_of(choice),
        start.len() < choice.len(),
    ensures
        start.push(choice[start.len() as int]).is_prefix_of(choice),
{
    let longer = start.push(choice[start.len() as int]);
    assert(longer =~= choice.subrange(0, (start.len() + 1) as int)) by {
        assert forall|k: int| 0 <= k < longer.len() implies longer[k] == choice[k] by {
            if k < start.len() {
                assert(start[k] == choice.subrange(0, start.len() as int)[k]);
            }
        }
    }
}

proof fn lemma_count_true_monotone(axes: Seq<bool>, i: int)
    requires
        0 <= i <= axes.len(),
    ensures
        count_true(axes.take(i)) <= count_true(axes),
    decreases axes.len() - i,
{
    if i < axes.len() {
        lemma_count_true_monotone(axes, i + 1);
        assert(axes.take(i + 1).drop_last() =~= axes.take(i));
    } else {
        assert(axes.take(i) =~= axes);
    }
}

/// Whether every choice of `None` among the nullable arguments is taken by a fitting signature.
fn covers_full_cartesian_product(
    kind: CallKind,
    signatures: &Vec<SupportedSignature>,
    form: usize,
    nullable: &Vec<bool>,
    fitting: &Vec<usize>,
    budget: &mut PresentationBudget,
) -> (covered: Result<bool, BudgetExceeded>)
    requires
        form < signatures@.len(),
        fitting@.len() >= 1,
        nullable@ == nullable_axes(
            kind,
            signatures@.to_set(),
            metadata(kind, signatures@[form as int]),
            shape(kind, signatures@[form as int]),
        ),
        lists(
            signatures@,
            of_shape(
                kind,
                signatures@.to_set(),
                metadata(kind, signatures@[form as int]),
                shape(kind, signatures@[form as int]),
            ),
            fitting@,
        ),
    ensures
        covered is Err ==> final(budget).remaining == old(budget).remaining,
        ({
            let meta = metadata(kind, signatures@[form as int]);
            let work = vstd::arithmetic::power2::pow2(count_true(nullable@)) * fitting@.len()
                * larger(meta.len(), 1);
            match covered {
                Ok(covered) => work <= old(budget).remaining && final(budget).remaining == old(
                    budget,
                ).remaining - work && covered == covers(
                    kind,
                    signatures@.to_set(),
                    meta,
                    shape(kind, signatures@[form as int]),
                ),
                Err(_) => work > old(budget).remaining,
            }
        }),
{
    let ghost meta = metadata(kind, signatures@[form as int]);
    let arity = presented_args(kind, &signatures[form]).len();
    let mut combinations: usize = 1;
    let mut i: usize = 0;
    proof {
        vstd::arithmetic::power2::lemma2_to64();
        assert(nullable@.take(0) =~= Seq::<bool>::empty());
    }
    let height: usize = if arity < 1 {
        1
    } else {
        arity
    };
    while i < nullable.len()
        invariant
            i <= nullable.len(),
            *budget == *old(budget),
            form < signatures@.len(),
            meta == metadata(kind, signatures@[form as int]),
            fitting@.len() >= 1,
            height == larger(meta.len(), 1),
            combinations == vstd::arithmetic::power2::pow2(count_true(nullable@.take(i as int))),
        decreases nullable.len() - i,
    {
        proof {
            assert(nullable@.take(i + 1).drop_last() =~= nullable@.take(i as int));
        }
        if nullable[i] {
            let ghost count = count_true(nullable@.take(i as int));
            proof {
                vstd::arithmetic::power2::lemma_pow2_unfold(count + 1);
            }
            match combinations.checked_mul(2) {
                Some(doubled) => {
                    combinations = doubled;
                },
                None => {
                    proof {
                        let all = vstd::arithmetic::power2::pow2(count_true(nullable@));
                        lemma_count_true_monotone(nullable@, i + 1);
                        if count + 1 < count_true(nullable@) {
                            vstd::arithmetic::power2::lemma_pow2_strictly_increases(
                                count + 1,
                                count_true(nullable@),
                            );
                        }
                        assert(all * fitting@.len() * larger(meta.len(), 1) >= all)
                            by (nonlinear_arith)
                            requires
                                fitting@.len() >= 1,
                                larger(meta.len(), 1) >= 1,
                                all >= 0,
                        ;
                    }
                    return Err(BudgetExceeded);
                },
            }
        }
        i = i + 1;
    }
    assert(nullable@.take(nullable@.len() as int) =~= nullable@);
    match spend_product(budget, combinations, fitting.len(), height) {
        Ok(_) => {},
        Err(_) => {
            return Err(BudgetExceeded);
        },
    }
    let mut begin: Vec<bool> = Vec::new();
    let covered = extends_to_cover(kind, signatures, form, nullable, fitting, &mut begin);
    proof {
        let pool = signatures@.to_set();
        let outline = shape(kind, signatures@[form as int]);
        let none = Seq::<bool>::empty();
        assert forall|choice: Seq<bool>| none.is_prefix_of(choice) by {
            assert(none =~= choice.subrange(0, 0));
        }
        assert(covers_from(kind, pool, meta, outline, nullable@, none) == covers(
            kind,
            pool,
            meta,
            outline,
        ));
    }
    Ok(covered)
}

/// The positions of the signatures that share a signature's argument names and defaults.
fn group_positions(kind: CallKind, signatures: &Vec<SupportedSignature>, of: usize) -> (positions:
    Vec<usize>)
    requires
        of < signatures@.len(),
    ensures
        lists(signatures@, of_group(kind, metadata(kind, signatures@[of as int])), positions@),
        positions@.len() >= 1,
{
    let ghost condition = of_group(kind, metadata(kind, signatures@[of as int]));
    let mut positions: Vec<usize> = Vec::new();
    let mut i: usize = 0;
    assert(signatures@.take(0) =~= Seq::<SupportedSignature>::empty());
    while i < signatures.len()
        invariant
            i <= signatures.len(),
            of < signatures.len(),
            condition == of_group(kind, metadata(kind, signatures@[of as int])),
            positions@.len() == count_where(signatures@.take(i as int), condition),
            forall|m: int|
                0 <= m < positions.len() ==> #[trigger] positions@[m] < i && condition(
                    signatures@[positions@[m] as int],
                ),
            forall|j: int|
                0 <= j < i && condition(#[trigger] signatures@[j]) ==> exists|m: int|
                    0 <= m < positions@.len() && #[trigger] positions@[m] == j,
        decreases signatures.len() - i,
    {
        proof {
            assert(signatures@.take(i + 1).drop_last() =~= signatures@.take(i as int));
            assert(signatures@.take(i + 1).last() == signatures@[i as int]);
        }
        let ghost before = positions@;
        if same_argument_metadata(kind, &signatures[i], &signatures[of]) {
            positions.push(i);
            assert(positions@[before.len() as int] == i);
        }
        proof {
            assert forall|j: int|
                0 <= j < i + 1 && condition(#[trigger] signatures@[j]) implies exists|m: int|
                0 <= m < positions@.len() && #[trigger] positions@[m] == j by {
                if j < i {
                    let m = choose|m: int| 0 <= m < before.len() && #[trigger] before[m] == j;
                    assert(positions@[m] == j);
                }
            }
        }
        i = i + 1;
    }
    proof {
        assert(signatures@.take(signatures@.len() as int) =~= signatures@);
        assert(condition(signatures@[of as int]));
    }
    positions
}

/// The positions of the signatures that fit a signature's shape within its group.
fn fitting_positions(kind: CallKind, signatures: &Vec<SupportedSignature>, form: usize) -> (
positions: Vec<usize>)
    requires
        form < signatures@.len(),
    ensures
        lists(
            signatures@,
            of_shape(
                kind,
                signatures@.to_set(),
                metadata(kind, signatures@[form as int]),
                shape(kind, signatures@[form as int]),
            ),
            positions@,
        ),
        positions@.len() >= 1,
{
    let ghost pool = signatures@.to_set();
    let ghost meta = metadata(kind, signatures@[form as int]);
    let ghost outline = shape(kind, signatures@[form as int]);
    let ghost condition = of_shape(kind, pool, meta, outline);
    let mut positions: Vec<usize> = Vec::new();
    let mut i: usize = 0;
    assert(signatures@.take(0) =~= Seq::<SupportedSignature>::empty());
    while i < signatures.len()
        invariant
            i <= signatures.len(),
            form < signatures.len(),
            pool == signatures@.to_set(),
            meta == metadata(kind, signatures@[form as int]),
            outline == shape(kind, signatures@[form as int]),
            condition == of_shape(kind, pool, meta, outline),
            positions@.len() == count_where(signatures@.take(i as int), condition),
            forall|m: int|
                0 <= m < positions.len() ==> #[trigger] positions@[m] < i && condition(
                    signatures@[positions@[m] as int],
                ),
            forall|j: int|
                0 <= j < i && condition(#[trigger] signatures@[j]) ==> exists|m: int|
                    0 <= m < positions@.len() && #[trigger] positions@[m] == j,
        decreases signatures.len() - i,
    {
        proof {
            assert(signatures@.take(i + 1).drop_last() =~= signatures@.take(i as int));
            assert(signatures@.take(i + 1).last() == signatures@[i as int]);
            assert(pool.contains(signatures@[i as int]));
        }
        let ghost before = positions@;
        if same_argument_metadata(kind, &signatures[i], &signatures[form]) {
            proof {
                assert(metadata(kind, signatures@[i as int]).len() == meta.len());
            }
            if signature_matches_shape(kind, &signatures[i], &signatures[form]) {
                positions.push(i);
                assert(positions@[before.len() as int] == i);
            }
        }
        proof {
            assert forall|j: int|
                0 <= j < i + 1 && condition(#[trigger] signatures@[j]) implies exists|m: int|
                0 <= m < positions@.len() && #[trigger] positions@[m] == j by {
                if j < i {
                    let m = choose|m: int| 0 <= m < before.len() && #[trigger] before[m] == j;
                    assert(positions@[m] == j);
                }
            }
        }
        i = i + 1;
    }
    proof {
        assert(signatures@.take(signatures@.len() as int) =~= signatures@);
        assert(pool.contains(signatures@[form as int]));
        assert(fits(kind, signatures@[form as int], outline));
        assert(condition(signatures@[form as int]));
    }
    positions
}

/// For each argument, whether some signature of the group takes more than `None`.
fn typed_axes(
    kind: CallKind,
    signatures: &Vec<SupportedSignature>,
    group: &Vec<usize>,
    of: usize,
) -> (axes: Vec<bool>)
    requires
        of < signatures@.len(),
        lists(signatures@, of_group(kind, metadata(kind, signatures@[of as int])), group@),
    ensures
        axes@.len() == metadata(kind, signatures@[of as int]).len(),
        forall|k: int|
            0 <= k < axes@.len() ==> #[trigger] axes@[k] == has_non_none(
                kind,
                signatures@.to_set(),
                metadata(kind, signatures@[of as int]),
                k,
            ),
{
    let ghost pool = signatures@.to_set();
    let ghost meta = metadata(kind, signatures@[of as int]);
    let arity = presented_args(kind, &signatures[of]).len();
    let mut axes: Vec<bool> = Vec::new();
    let mut k: usize = 0;
    while k < arity
        invariant
            k <= arity,
            arity == meta.len(),
            of < signatures.len(),
            pool == signatures@.to_set(),
            meta == metadata(kind, signatures@[of as int]),
            lists(signatures@, of_group(kind, meta), group@),
            axes@.len() == k,
            forall|j: int|
                0 <= j < k ==> #[trigger] axes@[j] == has_non_none(kind, pool, meta, j),
        decreases arity - k,
    {
        let mut found = false;
        let mut i: usize = 0;
        while i < group.len()
            invariant
                i <= group.len(),
                k < arity,
                arity == meta.len(),
                of < signatures.len(),
                pool == signatures@.to_set(),
                meta == metadata(kind, signatures@[of as int]),
                lists(signatures@, of_group(kind, meta), group@),
                found ==> has_non_none(kind, pool, meta, k as int),
                !found ==> forall|m: int|
                    0 <= m < i ==> shape(kind, signatures@[#[trigger] group@[m] as int])[k as int]
                        is None,
            decreases group.len() - i,
        {
            let at = group[i];
            proof {
                assert(of_group(kind, meta)(signatures@[at as int]));
                assert(metadata(kind, signatures@[at as int]).len() == meta.len());
                assert(pool.contains(signatures@[at as int]));
            }
            let args = presented_args(kind, &signatures[at]);
            if !is_none(args[k].ty()) {
                proof {
                    assert(in_group(kind, pool, meta, signatures@[at as int]));
                }
                found = true;
            }
            i = i + 1;
        }
        proof {
            if !found && has_non_none(kind, pool, meta, k as int) {
                let signature = choose|signature: SupportedSignature| #[trigger]
                    in_group(kind, pool, meta, signature) && shape(kind, signature)[k as int]
                        is Some;
                let at = choose|at: int| 0 <= at < signatures@.len() && signatures@[at]
                    == signature;
                assert(of_group(kind, meta)(signatures@[at]));
                let m = choose|m: int| 0 <= m < group@.len() && #[trigger] group@[m] == at;
                assert(shape(kind, signatures@[group@[m] as int])[k as int] is None);
            }
        }
        axes.push(found);
        k = k + 1;
    }
    axes
}

/// For each argument of a shape, whether some fitting signature accepts `None` there.
fn nullable_positions(
    kind: CallKind,
    signatures: &Vec<SupportedSignature>,
    form: usize,
    fitting: &Vec<usize>,
) -> (axes: Vec<bool>)
    requires
        form < signatures@.len(),
        lists(
            signatures@,
            of_shape(
                kind,
                signatures@.to_set(),
                metadata(kind, signatures@[form as int]),
                shape(kind, signatures@[form as int]),
            ),
            fitting@,
        ),
    ensures
        axes@ == nullable_axes(
            kind,
            signatures@.to_set(),
            metadata(kind, signatures@[form as int]),
            shape(kind, signatures@[form as int]),
        ),
{
    let ghost pool = signatures@.to_set();
    let ghost meta = metadata(kind, signatures@[form as int]);
    let ghost outline = shape(kind, signatures@[form as int]);
    let expected = presented_args(kind, &signatures[form]);
    let mut axes: Vec<bool> = Vec::new();
    let mut k: usize = 0;
    while k < expected.len()
        invariant
            k <= expected.len(),
            expected@ == presented(kind, signatures@[form as int]),
            expected@.len() == meta.len(),
            form < signatures.len(),
            pool == signatures@.to_set(),
            meta == metadata(kind, signatures@[form as int]),
            outline == shape(kind, signatures@[form as int]),
            lists(signatures@, of_shape(kind, pool, meta, outline), fitting@),
            axes@.len() == k,
            forall|j: int|
                0 <= j < k ==> #[trigger] axes@[j] == is_nullable(kind, pool, meta, outline, j),
        decreases expected.len() - k,
    {
        let mut found = false;
        if !is_none(expected[k].ty()) {
            let mut i: usize = 0;
            while i < fitting.len()
                invariant
                    i <= fitting.len(),
                    k < expected@.len(),
                    expected@.len() == meta.len(),
                    form < signatures.len(),
                    pool == signatures@.to_set(),
                    meta == metadata(kind, signatures@[form as int]),
                    outline == shape(kind, signatures@[form as int]),
                    outline[k as int] is Some,
                    lists(signatures@, of_shape(kind, pool, meta, outline), fitting@),
                    found ==> is_nullable(kind, pool, meta, outline, k as int),
                    !found ==> forall|m: int|
                        0 <= m < i ==> !presented(
                            kind,
                            signatures@[#[trigger] fitting@[m] as int],
                        )[k as int].ty.takes_none(),
                decreases fitting.len() - i,
            {
                let at = fitting[i];
                proof {
                    assert(of_shape(kind, pool, meta, outline)(signatures@[at as int]));
                    assert(metadata(kind, signatures@[at as int]).len() == meta.len());
                }
                let args = presented_args(kind, &signatures[at]);
                if args[k].ty().accepts_none() {
                    proof {
                        assert(compatible(kind, pool, meta, outline, signatures@[at as int]));
                    }
                    found = true;
                }
                i = i + 1;
            }
        }
        proof {
            if !found && is_nullable(kind, pool, meta, outline, k as int) {
                let signature = choose|signature: SupportedSignature| #[trigger]
                    compatible(kind, pool, meta, outline, signature) && presented(
                        kind,
                        signature,
                    )[k as int].ty.takes_none();
                let at = choose|at: int| 0 <= at < signatures@.len() && signatures@[at]
                    == signature;
                assert(of_shape(kind, pool, meta, outline)(signatures@[at]));
                let m = choose|m: int| 0 <= m < fitting@.len() && #[trigger] fitting@[m] == at;
                assert(!presented(kind, signatures@[fitting@[m] as int])[k as int].ty.takes_none());
            }
        }
        axes.push(found);
        k = k + 1;
    }
    assert(axes@ =~= nullable_axes(kind, pool, meta, outline));
    axes
}

/// The shapes of the signatures at the first positions of a list.
spec fn shapes_at(
    kind: CallKind,
    signatures: Seq<SupportedSignature>,
    positions: Seq<usize>,
) -> Set<Shape> {
    Set::new(
        |form: Shape|
            exists|m: int|
                0 <= m < positions.len() && shape(
                    kind,
                    signatures[#[trigger] positions[m] as int],
                ) == form,
    )
}

proof fn lemma_shapes_at_push(
    kind: CallKind,
    signatures: Seq<SupportedSignature>,
    positions: Seq<usize>,
    at: usize,
)
    ensures
        shapes_at(kind, signatures, positions.push(at)) =~= shapes_at(
            kind,
            signatures,
            positions,
        ).insert(shape(kind, signatures[at as int])),
{
    let longer = positions.push(at);
    assert forall|form: Shape| #[trigger]
        shapes_at(kind, signatures, longer).contains(form) == shapes_at(
            kind,
            signatures,
            positions,
        ).insert(shape(kind, signatures[at as int])).contains(form) by {
        if shapes_at(kind, signatures, positions).contains(form) {
            let m = choose|m: int|
                0 <= m < positions.len() && shape(
                    kind,
                    signatures[#[trigger] positions[m] as int],
                ) == form;
            assert(longer[m] == positions[m]);
        }
        if form == shape(kind, signatures[at as int]) {
            assert(longer[positions.len() as int] == at);
        }
        if shapes_at(kind, signatures, longer).contains(form) {
            let m = choose|m: int|
                0 <= m < longer.len() && shape(
                    kind,
                    signatures[#[trigger] longer[m] as int],
                ) == form;
            if m < positions.len() {
                assert(longer[m] == positions[m]);
            }
        }
    }
}

/// One position for each full shape of a group.
fn shape_positions(
    kind: CallKind,
    signatures: &Vec<SupportedSignature>,
    group: &Vec<usize>,
    of: usize,
) -> (positions: Vec<usize>)
    requires
        of < signatures@.len(),
        lists(signatures@, of_group(kind, metadata(kind, signatures@[of as int])), group@),
    ensures
        forall|m: int|
            0 <= m < positions@.len() ==> #[trigger] positions@[m] < signatures@.len() && metadata(
                kind,
                signatures@[positions@[m] as int],
            ) == metadata(kind, signatures@[of as int]),
        forall|m: int, n: int|
            0 <= m < n < positions@.len() ==> shape(
                kind,
                signatures@[#[trigger] positions@[m] as int],
            ) != shape(kind, signatures@[#[trigger] positions@[n] as int]),
        full_shapes(kind, signatures@.to_set(), metadata(kind, signatures@[of as int]))
            =~= shapes_at(kind, signatures@, positions@),
        shapes_at(kind, signatures@, positions@).finite(),
        shapes_at(kind, signatures@, positions@).len() == positions@.len(),
{
    let ghost pool = signatures@.to_set();
    let ghost meta = metadata(kind, signatures@[of as int]);
    let typed = typed_axes(kind, signatures, group, of);
    let mut positions: Vec<usize> = Vec::new();
    let mut i: usize = 0;
    proof {
        assert(shapes_at(kind, signatures@, positions@) =~= Set::<Shape>::empty());
    }
    while i < group.len()
        invariant
            i <= group.len(),
            of < signatures.len(),
            pool == signatures@.to_set(),
            meta == metadata(kind, signatures@[of as int]),
            lists(signatures@, of_group(kind, meta), group@),
            typed@.len() == meta.len(),
            forall|k: int|
                0 <= k < typed@.len() ==> #[trigger] typed@[k] == has_non_none(
                    kind,
                    pool,
                    meta,
                    k,
                ),
            forall|m: int|
                0 <= m < positions@.len() ==> #[trigger] positions@[m] < signatures@.len()
                    && metadata(kind, signatures@[positions@[m] as int]) == meta && is_full(
                    kind,
                    pool,
                    meta,
                    shape(kind, signatures@[positions@[m] as int]),
                ),
            forall|m: int, n: int|
                0 <= m < n < positions@.len() ==> shape(
                    kind,
                    signatures@[#[trigger] positions@[m] as int],
                ) != shape(kind, signatures@[#[trigger] positions@[n] as int]),
            forall|m: int|
                0 <= m < i && is_full(
                    kind,
                    pool,
                    meta,
                    shape(kind, signatures@[#[trigger] group@[m] as int]),
                ) ==> shapes_at(kind, signatures@, positions@).contains(
                    shape(kind, signatures@[group@[m] as int]),
                ),
            shapes_at(kind, signatures@, positions@).finite(),
            shapes_at(kind, signatures@, positions@).len() == positions@.len(),
        decreases group.len() - i,
    {
        let at = group[i];
        let ghost form = shape(kind, signatures@[at as int]);
        proof {
            assert(of_group(kind, meta)(signatures@[at as int]));
            assert(metadata(kind, signatures@[at as int]).len() == meta.len());
        }
        let args = presented_args(kind, &signatures[at]);
        let mut full = true;
        let mut k: usize = 0;
        while k < args.len()
            invariant
                k <= args.len(),
                at < signatures.len(),
                args@ == presented(kind, signatures@[at as int]),
                args@.len() == meta.len(),
                form == shape(kind, signatures@[at as int]),
                typed@.len() == meta.len(),
                forall|k: int|
                    0 <= k < typed@.len() ==> #[trigger] typed@[k] == has_non_none(
                        kind,
                        pool,
                        meta,
                        k,
                    ),
                full ==> forall|j: int| 0 <= j < k && #[trigger] typed@[j] ==> form[j] is Some,
                !full ==> !is_full(kind, pool, meta, form),
            decreases args.len() - k,
        {
            if typed[k] && is_none(args[k].ty()) {
                proof {
                    assert(has_non_none(kind, pool, meta, k as int));
                    assert(form[k as int] is None);
                }
                full = false;
            }
            k = k + 1;
        }
        proof {
            if full {
                assert forall|k: int|
                    0 <= k < meta.len() && #[trigger] has_non_none(kind, pool, meta, k) implies
                    form[k] is Some by {
                    assert(typed@[k]);
                }
            }
            assert(full == is_full(kind, pool, meta, form));
        }
        let ghost before = positions@;
        if full {
            let mut fresh = true;
            let mut j: usize = 0;
            while j < positions.len()
                invariant
                    j <= positions.len(),
                    at < signatures.len(),
                    positions@ == before,
                    metadata(kind, signatures@[at as int]) == meta,
                    form == shape(kind, signatures@[at as int]),
                    forall|m: int|
                        0 <= m < positions@.len() ==> #[trigger] positions@[m] < signatures@.len()
                            && metadata(kind, signatures@[positions@[m] as int]) == meta,
                    !fresh ==> shapes_at(kind, signatures@, positions@).contains(form),
                    fresh ==> forall|m: int|
                        0 <= m < j ==> shape(
                            kind,
                            signatures@[#[trigger] positions@[m] as int],
                        ) != form,
                decreases positions.len() - j,
            {
                let other = positions[j];
                proof {
                    assert(metadata(kind, signatures@[other as int]).len() == meta.len());
                    assert(metadata(kind, signatures@[at as int]).len() == meta.len());
                }
                if same_non_none_shape(kind, &signatures[at], &signatures[other]) {
                    fresh = false;
                }
                j = j + 1;
            }
            if fresh {
                proof {
                    lemma_shapes_at_push(kind, signatures@, positions@, at);
                    assert(!shapes_at(kind, signatures@, positions@).contains(form));
                }
                positions.push(at);
            }
        }
        proof {
            assert forall|m: int|
                0 <= m < i + 1 && is_full(
                    kind,
                    pool,
                    meta,
                    shape(kind, signatures@[#[trigger] group@[m] as int]),
                ) implies shapes_at(kind, signatures@, positions@).contains(
                shape(kind, signatures@[group@[m] as int]),
            ) by {
                if positions@.len() > before.len() {
                    lemma_shapes_at_push(kind, signatures@, before, at);
                }
            }
        }
        i = i + 1;
    }
    proof {
        let found = shapes_at(kind, signatures@, positions@);
        let wanted = full_shapes(kind, pool, meta);
        assert forall|form: Shape| #[trigger] wanted.contains(form) == found.contains(form) by {
            if wanted.contains(form) {
                let signature = choose|signature: SupportedSignature| #[trigger]
                    in_group(kind, pool, meta, signature) && shape(kind, signature) == form;
                let at = choose|at: int| 0 <= at < signatures@.len() && signatures@[at]
                    == signature;
                assert(of_group(kind, meta)(signatures@[at]));
                let m = choose|m: int| 0 <= m < group@.len() && #[trigger] group@[m] == at;
                assert(is_full(kind, pool, meta, shape(kind, signatures@[group@[m] as int])));
            }
            if found.contains(form) {
                let m = choose|m: int|
                    0 <= m < positions@.len() && shape(
                        kind,
                        signatures@[#[trigger] positions@[m] as int],
                    ) == form;
                let signature = signatures@[positions@[m] as int];
                assert(pool.contains(signature));
                assert(in_group(kind, pool, meta, signature));
            }
        }
        assert(wanted =~= found);
    }
    positions
}

proof fn lemma_shape_sum(
    kind: CallKind,
    signatures: Seq<SupportedSignature>,
    meta: Metadata,
    positions: Seq<usize>,
    j: int,
)
    requires
        0 <= j < positions.len(),
        forall|m: int, n: int|
            0 <= m < n < positions.len() ==> shape(
                kind,
                signatures[#[trigger] positions[m] as int],
            ) != shape(kind, signatures[#[trigger] positions[n] as int]),
        shapes_at(kind, signatures, positions.take(j)).finite(),
    ensures
        shapes_at(kind, signatures, positions.take(j + 1)).finite(),
        sum_over(
            shapes_at(kind, signatures, positions.take(j + 1)),
            shape_measure(kind, signatures, meta),
        ) == sum_over(
            shapes_at(kind, signatures, positions.take(j)),
            shape_measure(kind, signatures, meta),
        ) + shape_work(kind, signatures, meta, shape(kind, signatures[positions[j] as int])),
{
    let before = positions.take(j);
    let form = shape(kind, signatures[positions[j] as int]);
    assert(positions.take(j + 1) =~= before.push(positions[j]));
    lemma_shapes_at_push(kind, signatures, before, positions[j]);
    assert(!shapes_at(kind, signatures, before).contains(form)) by {
        if shapes_at(kind, signatures, before).contains(form) {
            let m = choose|m: int|
                0 <= m < before.len() && shape(kind, signatures[#[trigger] before[m] as int])
                    == form;
            assert(positions[m] == before[m]);
            assert(positions[j] == positions[j]);
        }
    }
    lemma_sum_insert(
        shapes_at(kind, signatures, before),
        shape_measure(kind, signatures, meta),
        form,
    );
}

proof fn lemma_shape_sum_monotone(
    kind: CallKind,
    signatures: Seq<SupportedSignature>,
    meta: Metadata,
    positions: Seq<usize>,
    j: int,
)
    requires
        0 <= j <= positions.len(),
        forall|m: int, n: int|
            0 <= m < n < positions.len() ==> shape(
                kind,
                signatures[#[trigger] positions[m] as int],
            ) != shape(kind, signatures[#[trigger] positions[n] as int]),
        shapes_at(kind, signatures, positions.take(j)).finite(),
    ensures
        sum_over(
            shapes_at(kind, signatures, positions.take(j)),
            shape_measure(kind, signatures, meta),
        ) <= sum_over(
            shapes_at(kind, signatures, positions),
            shape_measure(kind, signatures, meta),
        ),
    decreases positions.len() - j,
{
    if j < positions.len() {
        lemma_shape_sum(kind, signatures, meta, positions, j);
        lemma_shape_sum_monotone(kind, signatures, meta, positions, j + 1);
    } else {
        assert(positions.take(j) =~= positions);
    }
}

/// A display of a collapse of one of the shapes at the first positions.
spec fn collapsed_among(
    kind: CallKind,
    name: Seq<char>,
    signatures: Seq<SupportedSignature>,
    meta: Metadata,
    positions: Seq<usize>,
    display: Seq<char>,
) -> bool {
    exists|m: int|
        0 <= m < positions.len() && ({
            let form = shape(kind, signatures[#[trigger] positions[m] as int]);
            collapses(kind, signatures.to_set(), meta, form) && display == collapsed_text(
                name,
                meta,
                form,
                nullable_axes(kind, signatures.to_set(), meta, form),
            )
        })
}

/// Whether one of the shapes at the first positions collapses and takes the signature in.
spec fn covered_among(
    kind: CallKind,
    signatures: Seq<SupportedSignature>,
    meta: Metadata,
    positions: Seq<usize>,
    signature: SupportedSignature,
) -> bool {
    exists|m: int|
        0 <= m < positions.len() && ({
            let form = shape(kind, signatures[#[trigger] positions[m] as int]);
            collapses(kind, signatures.to_set(), meta, form) && compatible(
                kind,
                signatures.to_set(),
                meta,
                form,
                signature,
            )
        })
}

proof fn lemma_among_push(
    kind: CallKind,
    name: Seq<char>,
    signatures: Seq<SupportedSignature>,
    meta: Metadata,
    positions: Seq<usize>,
    at: usize,
)
    ensures
        forall|display: Seq<char>| #[trigger]
            collapsed_among(kind, name, signatures, meta, positions.push(at), display) <==> (
            collapsed_among(kind, name, signatures, meta, positions, display) || ({
                let form = shape(kind, signatures[at as int]);
                collapses(kind, signatures.to_set(), meta, form) && display == collapsed_text(
                    name,
                    meta,
                    form,
                    nullable_axes(kind, signatures.to_set(), meta, form),
                )
            })),
        forall|signature: SupportedSignature| #[trigger]
            covered_among(kind, signatures, meta, positions.push(at), signature) <==> (
            covered_among(kind, signatures, meta, positions, signature) || ({
                let form = shape(kind, signatures[at as int]);
                collapses(kind, signatures.to_set(), meta, form) && compatible(
                    kind,
                    signatures.to_set(),
                    meta,
                    form,
                    signature,
                )
            })),
{
    let longer = positions.push(at);
    assert(longer[positions.len() as int] == at);
    assert forall|m: int| 0 <= m < positions.len() implies #[trigger] longer[m] == positions[m] by {
    }
    assert forall|display: Seq<char>|
        collapsed_among(kind, name, signatures, meta, positions, display) implies #[trigger]
    collapsed_among(kind, name, signatures, meta, longer, display) by {
        let m = choose|m: int|
            0 <= m < positions.len() && ({
                let form = shape(kind, signatures[#[trigger] positions[m] as int]);
                collapses(kind, signatures.to_set(), meta, form) && display == collapsed_text(
                    name,
                    meta,
                    form,
                    nullable_axes(kind, signatures.to_set(), meta, form),
                )
            });
        assert(longer[m] == positions[m]);
    }
    assert forall|signature: SupportedSignature|
        covered_among(kind, signatures, meta, positions, signature) implies #[trigger]
    covered_among(kind, signatures, meta, longer, signature) by {
        let m = choose|m: int|
            0 <= m < positions.len() && ({
                let form = shape(kind, signatures[#[trigger] positions[m] as int]);
                collapses(kind, signatures.to_set(), meta, form) && compatible(
                    kind,
                    signatures.to_set(),
                    meta,
                    form,
                    signature,
                )
            });
        assert(longer[m] == positions[m]);
    }
}

/// Adds the collapsed display of one shape, if it collapses, and marks what it stands for.
fn collapse_shape(
    call: &SupportedCall,
    signatures: &Vec<SupportedSignature>,
    form: usize,
    displays: &mut Vec<String>,
    covered: &mut Vec<bool>,
    budget: &mut PresentationBudget,
) -> (done: Result<(), BudgetExceeded>)
    requires
        form < signatures@.len(),
        full_shapes(
            call.kind,
            signatures@.to_set(),
            metadata(call.kind, signatures@[form as int]),
        ).contains(shape(call.kind, signatures@[form as int])),
        order::strictly_increasing(old(displays)@),
        old(covered)@.len() == signatures@.len(),
    ensures
        done is Err ==> final(budget).remaining == old(budget).remaining,
        ({
            let pool = signatures@.to_set();
            let meta = metadata(call.kind, signatures@[form as int]);
            let outline = shape(call.kind, signatures@[form as int]);
            let work = shape_work(call.kind, signatures@, meta, outline);
            let collapse = collapses(call.kind, pool, meta, outline);
            match done {
                Ok(_) => {
                    &&& work <= old(budget).remaining
                    &&& final(budget).remaining == old(budget).remaining - work
                    &&& order::strictly_increasing(final(displays)@)
                    &&& forall|display: Seq<char>| #[trigger]
                        order::keys(final(displays)@).contains(display) <==> (order::keys(
                            old(displays)@,
                        ).contains(display) || (collapse && display == collapsed_text(
                            call.name@,
                            meta,
                            outline,
                            nullable_axes(call.kind, pool, meta, outline),
                        )))
                    &&& final(covered)@.len() == signatures@.len()
                    &&& forall|i: int|
                        0 <= i < signatures@.len() ==> (#[trigger] final(covered)@[i] <==> (old(
                            covered,
                        )@[i] || (collapse && compatible(
                            call.kind,
                            pool,
                            meta,
                            outline,
                            signatures@[i],
                        ))))
                },
                Err(_) => work > old(budget).remaining && final(displays)@ == old(displays)@,
            }
        }),
{
    let kind = call.kind;
    let ghost pool = signatures@.to_set();
    let ghost meta = metadata(kind, signatures@[form as int]);
    let ghost outline = shape(kind, signatures@[form as int]);
    let fitting = fitting_positions(kind, signatures, form);
    let nullable = nullable_positions(kind, signatures, form, &fitting);
    let mut any = false;
    let mut k: usize = 0;
    while k < nullable.len()
        invariant
            k <= nullable.len(),
            any ==> nullable@.contains(true),
            !any ==> forall|j: int| 0 <= j < k ==> !#[trigger] nullable@[j],
        decreases nullable.len() - k,
    {
        if nullable[k] {
            assert(nullable@[k as int] == true);
            any = true;
        }
        k = k + 1;
    }
    assert(any == nullable@.contains(true));
    if !any {
        return Ok(());
    }
    let full = match covers_full_cartesian_product(
        kind,
        signatures,
        form,
        &nullable,
        &fitting,
        budget,
    ) {
        Ok(full) => full,
        Err(_) => {
            return Err(BudgetExceeded);
        },
    };
    if !full {
        return Ok(());
    }
    let display = format_collapsed_signature(
        call,
        &signatures[form],
        &signatures[form],
        &nullable,
    );
    proof {
        order::lemma_distinct_insert(displays@, display);
    }
    order::insert_distinct(displays, display);
    let mut i: usize = 0;
    while i < fitting.len()
        invariant
            i <= fitting.len(),
            form < signatures@.len(),
            lists(signatures@, of_shape(kind, pool, meta, outline), fitting@),
            covered@.len() == signatures@.len(),
            forall|j: int|
                0 <= j < signatures@.len() ==> (#[trigger] covered@[j] <==> (old(covered)@[j] || (
                exists|m: int| 0 <= m < i && #[trigger] fitting@[m] == j))),
        decreases fitting.len() - i,
    {
        let ghost before = covered@;
        let at = fitting[i];
        covered.set(at, true);
        proof {
            assert forall|j: int| 0 <= j < signatures@.len() implies (#[trigger] covered@[j] <==> (
            old(covered)@[j] || (exists|m: int| 0 <= m < i + 1 && #[trigger] fitting@[m] == j))) by {
                if j == at {
                    assert(fitting@[i as int] == j);
                } else {
                    assert(covered@[j] == before[j]);
                    if before[j] && !old(covered)@[j] {
                        let m = choose|m: int| 0 <= m < i && #[trigger] fitting@[m] == j;
                        assert(fitting@[m] == j);
                    }
                }
            }
        }
        i = i + 1;
    }
    proof {
        assert forall|j: int| 0 <= j < signatures@.len() implies (#[trigger] covered@[j] <==> (old(
            covered,
        )@[j] || compatible(kind, pool, meta, outline, signatures@[j]))) by {
            if compatible(kind, pool, meta, outline, signatures@[j]) {
                assert(of_shape(kind, pool, meta, outline)(signatures@[j]));
                let m = choose|m: int| 0 <= m < fitting@.len() && #[trigger] fitting@[m] == j;
                assert(fitting@[m] == j);
            }
            if covered@[j] && !old(covered)@[j] {
                let m = choose|m: int| 0 <= m < fitting@.len() && #[trigger] fitting@[m] == j;
                assert(of_shape(kind, pool, meta, outline)(signatures@[fitting@[m] as int]));
            }
        }
    }
    Ok(())
}

/// Adds the displays of one group of signatures: those with the argument names and defaults of a
/// given one. Where that one is not there, the group is empty and nothing is added. Displays that
/// were there stay, also where the work is too much.
pub fn add_group_displays(
    call: &SupportedCall,
    signatures: &Vec<SupportedSignature>,
    of: usize,
    displays: &mut Vec<String>,
    budget: &mut PresentationBudget,
) -> (done: Result<(), BudgetExceeded>)
    requires
        order::strictly_increasing(old(displays)@),
    ensures
        order::strictly_increasing(final(displays)@),
        forall|display: Seq<char>| #[trigger]
            order::keys(old(displays)@).contains(display) ==> order::keys(
                final(displays)@,
            ).contains(display),
        final(budget).remaining <= old(budget).remaining,
        of >= signatures@.len() ==> done is Ok && *final(displays) == *old(displays)
            && *final(budget) == *old(budget),
        of < signatures@.len() ==> {
            let pool = signatures@.to_set();
            let meta = metadata(call.kind, signatures@[of as int]);
            let work = group_work(call.kind, signatures@, meta);
            match done {
                Ok(_) => {
                    &&& work <= old(budget).remaining
                    &&& final(budget).remaining == old(budget).remaining - work
                    &&& forall|display: Seq<char>| #[trigger]
                        order::keys(final(displays)@).contains(display) <==> (order::keys(
                            old(displays)@,
                        ).contains(display) || group_shows(
                            call.kind,
                            call.name@,
                            pool,
                            meta,
                            display,
                        ))
                },
                Err(_) => work > old(budget).remaining,
            }
        },
{
    if of >= signatures.len() {
        return Ok(());
    }
    let kind = call.kind;
    let ghost pool = signatures@.to_set();
    let ghost meta = metadata(kind, signatures@[of as int]);
    let ghost start = budget.remaining as nat;
    let arity = presented_args(kind, &signatures[of]).len();
    let height: usize = if arity < 1 {
        1
    } else {
        arity
    };
    let group = group_positions(kind, signatures, of);
    let ghost size = group@.len();
    let ghost square = size * size * larger(meta.len(), 1);
    proof {
        assert(square >= 0);
    }
    match spend_product(budget, group.len(), group.len(), height) {
        Ok(_) => {},
        Err(_) => {
            proof {
                let forms = full_shapes(kind, pool, meta);
                assert(forms.len() * size * larger(meta.len(), 1) >= 0);
            }
            return Err(BudgetExceeded);
        },
    }
    let positions = shape_positions(kind, signatures, &group, of);
    let ghost sheet = positions@.len() * size * larger(meta.len(), 1);
    let ghost forms = full_shapes(kind, pool, meta);
    match spend_product(budget, positions.len(), group.len(), height) {
        Ok(_) => {},
        Err(_) => {
            return Err(BudgetExceeded);
        },
    }
    let mut covered: Vec<bool> = Vec::new();
    while covered.len() < signatures.len()
        invariant
            covered@.len() <= signatures@.len(),
            forall|j: int| 0 <= j < covered@.len() ==> !#[trigger] covered@[j],
        decreases signatures.len() - covered.len(),
    {
        covered.push(false);
    }
    let mut j: usize = 0;
    proof {
        assert(positions@.take(0) =~= Seq::<usize>::empty());
        assert(shapes_at(kind, signatures@, Seq::<usize>::empty()) =~= Set::<Shape>::empty());
        lemma_sum_empty::<Shape>(shape_measure(kind, signatures@, meta));
    }
    while j < positions.len()
        invariant
            j <= positions.len(),
            kind == call.kind,
            of < signatures.len(),
            pool == signatures@.to_set(),
            meta == metadata(kind, signatures@[of as int]),
            forms == full_shapes(kind, pool, meta),
            start == old(budget).remaining,
            group_work(kind, signatures@, meta) == square + sheet + sum_over(
                forms,
                shape_measure(kind, signatures@, meta),
            ),
            forall|m: int|
                0 <= m < positions@.len() ==> #[trigger] positions@[m] < signatures@.len()
                    && metadata(kind, signatures@[positions@[m] as int]) == meta,
            forall|m: int, n: int|
                0 <= m < n < positions@.len() ==> shape(
                    kind,
                    signatures@[#[trigger] positions@[m] as int],
                ) != shape(kind, signatures@[#[trigger] positions@[n] as int]),
            forms == shapes_at(kind, signatures@, positions@),
            shapes_at(kind, signatures@, positions@.take(j as int)).finite(),
            square + sheet + sum_over(
                shapes_at(kind, signatures@, positions@.take(j as int)),
                shape_measure(kind, signatures@, meta),
            ) + budget.remaining == start,
            order::strictly_increasing(displays@),
            covered@.len() == signatures@.len(),
            forall|display: Seq<char>| #[trigger]
                order::keys(displays@).contains(display) <==> (order::keys(
                    old(displays)@,
                ).contains(display) || collapsed_among(
                    kind,
                    call.name@,
                    signatures@,
                    meta,
                    positions@.take(j as int),
                    display,
                )),
            forall|i: int|
                0 <= i < signatures@.len() ==> (#[trigger] covered@[i] <==> covered_among(
                    kind,
                    signatures@,
                    meta,
                    positions@.take(j as int),
                    signatures@[i],
                )),
        decreases positions.len() - j,
    {
        let form = positions[j];
        let ghost outline = shape(kind, signatures@[form as int]);
        proof {
            assert(positions@[j as int] == form);
            assert(shapes_at(kind, signatures@, positions@).contains(outline));
            assert(forms.contains(outline));
            lemma_shape_sum(kind, signatures@, meta, positions@, j as int);
            lemma_shape_sum_monotone(kind, signatures@, meta, positions@, j + 1);
            assert(positions@.take(j + 1) =~= positions@.take(j as int).push(form));
            lemma_among_push(
                kind,
                call.name@,
                signatures@,
                meta,
                positions@.take(j as int),
                form,
            );
        }
        match collapse_shape(call, signatures, form, displays, &mut covered, budget) {
            Ok(_) => {},
            Err(_) => {
                return Err(BudgetExceeded);
            },
        }
        j = j + 1;
    }
    let ghost collapsed = displays@;
    let ghost done = positions@;
    proof {
        assert(positions@.take(positions@.len() as int) =~= positions@);
    }
    let mut i: usize = 0;
    while i < group.len()
        invariant
            i <= group.len(),
            kind == call.kind,
            of < signatures.len(),
            pool == signatures@.to_set(),
            meta == metadata(kind, signatures@[of as int]),
            lists(signatures@, of_group(kind, meta), group@),
            covered@.len() == signatures@.len(),
            order::strictly_increasing(displays@),
            forall|display: Seq<char>| #[trigger]
                order::keys(displays@).contains(display) <==> (order::keys(collapsed).contains(
                    display,
                ) || exists|m: int|
                    0 <= m < i && !covered@[#[trigger] group@[m] as int] && display
                        == signature_text(kind, call.name@, signatures@[group@[m] as int])),
        decreases group.len() - i,
    {
        let at = group[i];
        let ghost before = displays@;
        if !covered[at] {
            let display = format_signature(call, &signatures[at]);
            proof {
                order::lemma_distinct_insert(displays@, display);
            }
            order::insert_distinct(displays, display);
        }
        proof {
            assert forall|display: Seq<char>| #[trigger]
                order::keys(displays@).contains(display) == (order::keys(collapsed).contains(
                display,
            ) || exists|m: int|
                0 <= m < i + 1 && !covered@[#[trigger] group@[m] as int] && display
                    == signature_text(kind, call.name@, signatures@[group@[m] as int])) by {
                assert(group@[i as int] == at);
                if order::keys(before).contains(display) && !order::keys(collapsed).contains(
                    display,
                ) {
                    let m = choose|m: int|
                        0 <= m < i && !covered@[#[trigger] group@[m] as int] && display
                            == signature_text(kind, call.name@, signatures@[group@[m] as int]);
                    assert(0 <= m < i + 1);
                }
                if exists|m: int|
                    0 <= m < i + 1 && !covered@[#[trigger] group@[m] as int] && display
                        == signature_text(kind, call.name@, signatures@[group@[m] as int]) {
                    let m = choose|m: int|
                        0 <= m < i + 1 && !covered@[#[trigger] group@[m] as int] && display
                            == signature_text(kind, call.name@, signatures@[group@[m] as int]);
                    if m < i {
                        assert(order::keys(before).contains(display));
                    }
                }
            }
        }
        i = i + 1;
    }
    proof {
        assert forall|display: Seq<char>| #[trigger]
            order::keys(displays@).contains(display) == (order::keys(old(displays)@).contains(
            display,
        ) || group_shows(kind, call.name@, pool, meta, display)) by {
            lemma_group_displays(
                kind,
                call.name@,
                signatures@,
                meta,
                group@,
                positions@,
                covered@,
                display,
            );
        }
    }
    Ok(())
}

/// What the two passes over a group add is what the group shows.
proof fn lemma_group_displays(
    kind: CallKind,
    name: Seq<char>,
    signatures: Seq<SupportedSignature>,
    meta: Metadata,
    group: Seq<usize>,
    positions: Seq<usize>,
    covered: Seq<bool>,
    display: Seq<char>,
)
    requires
        lists(signatures, of_group(kind, meta), group),
        full_shapes(kind, signatures.to_set(), meta) == shapes_at(kind, signatures, positions),
        covered.len() == signatures.len(),
        forall|i: int|
            0 <= i < signatures.len() ==> (#[trigger] covered[i] <==> covered_among(
                kind,
                signatures,
                meta,
                positions,
                signatures[i],
            )),
    ensures
        (collapsed_among(kind, name, signatures, meta, positions, display) || exists|m: int|
            0 <= m < group.len() && !covered[#[trigger] group[m] as int] && display
                == signature_text(kind, name, signatures[group[m] as int])) == group_shows(
            kind,
            name,
            signatures.to_set(),
            meta,
            display,
        ),
{
    let pool = signatures.to_set();
    assert(collapsed_among(kind, name, signatures, meta, positions, display) == exists|form: Shape|
        #[trigger]
        collapses(kind, pool, meta, form) && display == collapsed_text(
            name,
            meta,
            form,
            nullable_axes(kind, pool, meta, form),
        )) by {
        if exists|form: Shape| #[trigger]
            collapses(kind, pool, meta, form) && display == collapsed_text(
                name,
                meta,
                form,
                nullable_axes(kind, pool, meta, form),
            ) {
            let form = choose|form: Shape| #[trigger]
                collapses(kind, pool, meta, form) && display == collapsed_text(
                    name,
                    meta,
                    form,
                    nullable_axes(kind, pool, meta, form),
                );
            assert(shapes_at(kind, signatures, positions).contains(form));
            let m = choose|m: int|
                0 <= m < positions.len() && shape(
                    kind,
                    signatures[#[trigger] positions[m] as int],
                ) == form;
            assert(positions[m] == positions[m]);
        }
    }
    assert forall|i: int|
        0 <= i < signatures.len() && metadata(kind, signatures[i]) == meta implies #[trigger]
    covered[i] == is_covered(kind, pool, signatures[i]) by {
        let signature = signatures[i];
        assert(pool.contains(signature));
        if is_covered(kind, pool, signature) {
            let form = choose|form: Shape| #[trigger]
                collapses(kind, pool, metadata(kind, signature), form) && fits(
                    kind,
                    signature,
                    form,
                );
            assert(shapes_at(kind, signatures, positions).contains(form));
            let m = choose|m: int|
                0 <= m < positions.len() && shape(
                    kind,
                    signatures[#[trigger] positions[m] as int],
                ) == form;
            assert(compatible(kind, pool, meta, form, signature));
            assert(covered_among(kind, signatures, meta, positions, signature));
        }
        if covered_among(kind, signatures, meta, positions, signature) {
            let m = choose|m: int|
                0 <= m < positions.len() && ({
                    let form = shape(kind, signatures[#[trigger] positions[m] as int]);
                    collapses(kind, pool, meta, form) && compatible(
                        kind,
                        pool,
                        meta,
                        form,
                        signature,
                    )
                });
            let form = shape(kind, signatures[positions[m] as int]);
            assert(collapses(kind, pool, metadata(kind, signature), form));
        }
    }
    if exists|m: int|
        0 <= m < group.len() && !covered[#[trigger] group[m] as int] && display
            == signature_text(kind, name, signatures[group[m] as int]) {
        let m = choose|m: int|
            0 <= m < group.len() && !covered[#[trigger] group[m] as int] && display
                == signature_text(kind, name, signatures[group[m] as int]);
        let signature = signatures[group[m] as int];
        assert(of_group(kind, meta)(signature));
        assert(pool.contains(signature));
        assert(in_group(kind, pool, meta, signature));
    }
    if exists|signature: SupportedSignature| #[trigger]
        in_group(kind, pool, meta, signature) && !is_covered(kind, pool, signature) && display
            == signature_text(kind, name, signature) {
        let signature = choose|signature: SupportedSignature| #[trigger]
            in_group(kind, pool, meta, signature) && !is_covered(kind, pool, signature) && display
                == signature_text(kind, name, signature);
        let i = choose|i: int| 0 <= i < signatures.len() && signatures[i] == signature;
        assert(of_group(kind, meta)(signatures[i]));
        let m = choose|m: int| 0 <= m < group.len() && #[trigger] group[m] == i;
        assert(!covered[group[m] as int]);
    }
}

proof fn lemma_metadata_step(kind: CallKind, signatures: Seq<SupportedSignature>, i: int)
    requires
        0 <= i < signatures.len(),
        metadata_of(kind, signatures.take(i)).finite(),
    ensures
        metadata_of(kind, signatures.take(i + 1)) =~= metadata_of(
            kind,
            signatures.take(i),
        ).insert(metadata(kind, signatures[i])),
        metadata_of(kind, signatures.take(i + 1)).finite(),
{
    let before = signatures.take(i);
    let after = signatures.take(i + 1);
    assert(after =~= before.push(signatures[i]));
    assert forall|meta: Metadata| #[trigger]
        metadata_of(kind, after).contains(meta) == metadata_of(kind, before).insert(
            metadata(kind, signatures[i]),
        ).contains(meta) by {
        if metadata_of(kind, after).contains(meta) {
            let signature = choose|signature: SupportedSignature| #[trigger]
                after.contains(signature) && metadata(kind, signature) == meta;
            let at = choose|at: int| 0 <= at < after.len() && after[at] == signature;
            if at < i {
                assert(before[at] == signature);
                assert(before.contains(signature));
            }
        }
        if metadata_of(kind, before).contains(meta) {
            let signature = choose|signature: SupportedSignature| #[trigger]
                before.contains(signature) && metadata(kind, signature) == meta;
            let at = choose|at: int| 0 <= at < before.len() && before[at] == signature;
            assert(after[at] == signature);
            assert(after.contains(signature));
        }
        if meta == metadata(kind, signatures[i]) {
            assert(after[i] == signatures[i]);
            assert(after.contains(signatures[i]));
        }
    }
}

proof fn lemma_group_sum_monotone(kind: CallKind, signatures: Seq<SupportedSignature>, i: int)
    requires
        0 <= i <= signatures.len(),
        metadata_of(kind, signatures.take(i)).finite(),
    ensures
        sum_over(
            metadata_of(kind, signatures.take(i)),
            group_measure(kind, signatures),
        ) <= sum_over(metadata_of(kind, signatures), group_measure(kind, signatures)),
    decreases signatures.len() - i,
{
    if i < signatures.len() {
        let seen = metadata_of(kind, signatures.take(i));
        let meta = metadata(kind, signatures[i]);
        lemma_metadata_step(kind, signatures, i);
        lemma_group_sum_monotone(kind, signatures, i + 1);
        if seen.contains(meta) {
            assert(seen.insert(meta) =~= seen);
        } else {
            lemma_sum_insert(seen, group_measure(kind, signatures), meta);
        }
    } else {
        assert(signatures.take(i) =~= signatures);
    }
}

/// A display of one of the groups with the given argument names and defaults.
spec fn shown_by(
    kind: CallKind,
    name: Seq<char>,
    pool: Set<SupportedSignature>,
    metas: Set<Metadata>,
    display: Seq<char>,
) -> bool {
    exists|meta: Metadata|
        metas.contains(meta) && #[trigger] group_shows(kind, name, pool, meta, display)
}

/// The sorted displays of a call's signatures.
pub fn displays_for_call(
    call: &SupportedCall,
    signatures: &Vec<SupportedSignature>,
    budget: &mut PresentationBudget,
) -> (displays: Result<Vec<String>, BudgetExceeded>)
    ensures
        final(budget).remaining <= old(budget).remaining,
        ({
            let work = call_work(call.kind, signatures@);
            match displays {
                Ok(displays) => {
                    &&& work <= old(budget).remaining
                    &&& final(budget).remaining == old(budget).remaining - work
                    &&& order::strictly_increasing(displays@)
                    &&& forall|display: Seq<char>| #[trigger]
                        order::keys(displays@).contains(display) <==> call_shows(
                            call.kind,
                            call.name@,
                            signatures@.to_set(),
                            display,
                        )
                },
                Err(_) => work > old(budget).remaining,
            }
        }),
{
    let kind = call.kind;
    let ghost pool = signatures@.to_set();
    let ghost start = budget.remaining as nat;
    let ghost measure = group_measure(kind, signatures@);
    let mut most: usize = 0;
    let mut i: usize = 0;
    assert(signatures@.take(0) =~= Seq::<SupportedSignature>::empty());
    while i < signatures.len()
        invariant
            i <= signatures.len(),
            most == max_arity(kind, signatures@.take(i as int)),
        decreases signatures.len() - i,
    {
        proof {
            assert(signatures@.take(i + 1).drop_last() =~= signatures@.take(i as int));
            assert(signatures@.take(i + 1).last() == signatures@[i as int]);
        }
        let arity = presented_args(kind, &signatures[i]).len();
        if most < arity {
            most = arity;
        }
        i = i + 1;
    }
    assert(signatures@.take(signatures@.len() as int) =~= signatures@);
    let height: usize = if most < 1 {
        1
    } else {
        most
    };
    let ghost square = signatures@.len() * signatures@.len() * larger(
        max_arity(kind, signatures@),
        1,
    );
    match spend_product(budget, signatures.len(), signatures.len(), height) {
        Ok(_) => {},
        Err(_) => {
            return Err(BudgetExceeded);
        },
    }
    let mut displays: Vec<String> = Vec::new();
    i = 0;
    proof {
        assert(metadata_of(kind, signatures@.take(0)) =~= Set::<Metadata>::empty());
        lemma_sum_empty::<Metadata>(measure);
    }
    while i < signatures.len()
        invariant
            i <= signatures.len(),
            kind == call.kind,
            pool == signatures@.to_set(),
            start == old(budget).remaining,
            measure == group_measure(kind, signatures@),
            call_work(kind, signatures@) == square + sum_over(
                metadata_of(kind, signatures@),
                measure,
            ),
            metadata_of(kind, signatures@.take(i as int)).finite(),
            square + sum_over(metadata_of(kind, signatures@.take(i as int)), measure)
                + budget.remaining == start,
            order::strictly_increasing(displays@),
            forall|display: Seq<char>| #[trigger]
                order::keys(displays@).contains(display) <==> shown_by(
                    kind,
                    call.name@,
                    pool,
                    metadata_of(kind, signatures@.take(i as int)),
                    display,
                ),
        decreases signatures.len() - i,
    {
        let ghost seen = metadata_of(kind, signatures@.take(i as int));
        let ghost meta = metadata(kind, signatures@[i as int]);
        let mut fresh = true;
        let mut j: usize = 0;
        while j < i
            invariant
                j <= i,
                i < signatures.len(),
                seen == metadata_of(kind, signatures@.take(i as int)),
                meta == metadata(kind, signatures@[i as int]),
                !fresh ==> seen.contains(meta),
                fresh ==> forall|k: int|
                    0 <= k < j ==> metadata(kind, #[trigger] signatures@[k]) != meta,
            decreases i - j,
        {
            if same_argument_metadata(kind, &signatures[j], &signatures[i]) {
                proof {
                    assert(signatures@.take(i as int)[j as int] == signatures@[j as int]);
                    assert(signatures@.take(i as int).contains(signatures@[j as int]));
                }
                fresh = false;
            }
            j = j + 1;
        }
        proof {
            if fresh && seen.contains(meta) {
                let signature = choose|signature: SupportedSignature| #[trigger]
                    signatures@.take(i as int).contains(signature) && metadata(kind, signature)
                        == meta;
                let at = choose|at: int|
                    0 <= at < i && signatures@.take(i as int)[at] == signature;
                assert(metadata(kind, signatures@[at]) != meta);
            }
            lemma_metadata_step(kind, signatures@, i as int);
            lemma_group_sum_monotone(kind, signatures@, i + 1);
            if fresh {
                lemma_sum_insert(seen, measure, meta);
            } else {
                assert(seen.insert(meta) =~= seen);
            }
        }
        let ghost before = displays@;
        if fresh {
            match add_group_displays(call, signatures, i, &mut displays, budget) {
                Ok(_) => {},
                Err(_) => {
                    return Err(BudgetExceeded);
                },
            }
        }
        proof {
            let now = metadata_of(kind, signatures@.take(i + 1));
            assert forall|display: Seq<char>| #[trigger]
                order::keys(displays@).contains(display) == shown_by(
                kind,
                call.name@,
                pool,
                now,
                display,
            ) by {
                if shown_by(kind, call.name@, pool, now, display) {
                    let m = choose|m: Metadata|
                        now.contains(m) && #[trigger] group_shows(
                            kind,
                            call.name@,
                            pool,
                            m,
                            display,
                        );
                    if seen.contains(m) {
                        assert(shown_by(kind, call.name@, pool, seen, display));
                        assert(order::keys(before).contains(display));
                    }
                }
                if order::keys(before).contains(display) {
                    assert(shown_by(kind, call.name@, pool, seen, display));
                    let m = choose|m: Metadata|
                        seen.contains(m) && #[trigger] group_shows(
                            kind,
                            call.name@,
                            pool,
                            m,
                            display,
                        );
                    assert(now.contains(m));
                }
                if fresh && group_shows(kind, call.name@, pool, meta, display) {
                    assert(now.contains(meta));
                }
            }
        }
        i = i + 1;
    }
    proof {
        assert(signatures@.take(signatures@.len() as int) =~= signatures@);
        let metas = metadata_of(kind, signatures@);
        assert forall|display: Seq<char>| #[trigger]
            order::keys(displays@).contains(display) == call_shows(
            kind,
            call.name@,
            pool,
            display,
        ) by {
            if call_shows(kind, call.name@, pool, display) {
                let meta = choose|meta: Metadata| #[trigger]
                    group_shows(kind, call.name@, pool, meta, display);
                assert(exists|signature: SupportedSignature| #[trigger]
                    in_group(kind, pool, meta, signature));
                let signature = choose|signature: SupportedSignature| #[trigger]
                    in_group(kind, pool, meta, signature);
                assert(signatures@.contains(signature));
                assert(metas.contains(meta));
                assert(shown_by(kind, call.name@, pool, metas, display));
            }
        }
    }
    Ok(displays)
}

// ---------------------------------------------------------------------------------------------
// Presentation
// ---------------------------------------------------------------------------------------------

/// The work of presenting several calls; calls that are not registered take none.
pub open spec fn total_work(supported: SupportedFuncs, calls: Seq<CallKey>) -> nat
    decreases calls.len(),
{
    if calls.len() == 0 {
        0
    } else {
        let call = calls.last();
        total_work(supported, calls.drop_last()) + if supported.has(call) {
            call_work(call.kind, supported.at(call))
        } else {
            0
        }
    }
}

/// A display of one of the calls, with signatures collapsed where they can be.
pub open spec fn collapsed_shows(
    supported: SupportedFuncs,
    calls: Seq<CallKey>,
    display: Seq<char>,
) -> bool {
    exists|call: CallKey| #[trigger]
        calls.contains(call) && supported.has(call) && call_shows(
            call.kind,
            call.name,
            supported.at(call).to_set(),
            display,
        )
}

/// A display of one of the calls, with signatures as they are registered.
pub open spec fn raw_shows(
    supported: SupportedFuncs,
    calls: Seq<CallKey>,
    display: Seq<char>,
) -> bool {
    exists|call: CallKey, signature: SupportedSignature|
        #![trigger calls.contains(call), supported.at(call).contains(signature)]
        calls.contains(call) && supported.has(call) && supported.at(call).contains(signature)
            && display == signature_text(call.kind, call.name, signature)
}

/// The distinct calls among several, in registry order.
pub open spec fn distinct_calls(calls: Seq<SupportedCall>) -> Seq<CallKey> {
    order::keys(order::distinct_sort(calls))
}

/// What is shown of the calls: collapsed displays, unless they would take too much work.
pub open spec fn shows(
    supported: SupportedFuncs,
    calls: Seq<CallKey>,
    display: Seq<char>,
) -> bool {
    if total_work(supported, calls) <= MAX_PRESENTATION_WORK {
        collapsed_shows(supported, calls, display)
    } else {
        raw_shows(supported, calls, display)
    }
}

/// A list that holds exactly the shown displays, each once and in text order.
pub open spec fn is_listing(
    supported: SupportedFuncs,
    calls: Seq<CallKey>,
    displays: Seq<Seq<char>>,
) -> bool {
    &&& forall|i: int, j: int|
        0 <= i < j < displays.len() ==> text::text_before(
            #[trigger] displays[i],
            #[trigger] displays[j],
        )
    &&& forall|display: Seq<char>| #[trigger]
        displays.contains(display) <==> shows(supported, calls, display)
}

/// The first displays, and how many more there are.
pub open spec fn summary(displays: Seq<Seq<char>>) -> Seq<Seq<char>> {
    if displays.len() <= DISPLAY_LIMIT {
        displays
    } else {
        displays.take(DISPLAY_LIMIT as int).push(
            "... ["@ + text::decimal((displays.len() - DISPLAY_LIMIT) as nat) + " more]"@,
        )
    }
}

/// Keeps the first displays and counts the rest.
pub fn summarize(displays: Vec<String>) -> (shown: Vec<String>)
    ensures
        order::keys(shown@) == summary(order::keys(displays@)),
{
    if displays.len() <= DISPLAY_LIMIT {
        return displays;
    }
    let omitted: usize = displays.len() - DISPLAY_LIMIT;
    let ghost all = order::keys(displays@);
    let mut shown = displays;
    shown.truncate(DISPLAY_LIMIT);
    let ghost kept = shown@;
    let mut rest = "... [".to_owned();
    text::push_text(&mut rest, text::decimal_text(omitted).as_str());
    text::push_text(&mut rest, " more]");
    shown.push(rest);
    assert(order::keys(kept) =~= all.take(DISPLAY_LIMIT as int));
    assert(order::keys(shown@) =~= order::keys(kept).push(rest@));
    shown
}

/// The displays of several calls with signatures collapsed where they can be.
pub fn collapsed_displays(
    supported: &SupportedFuncs,
    calls: &Vec<SupportedCall>,
    budget: &mut PresentationBudget,
) -> (displays: Result<Vec<String>, BudgetExceeded>)
    requires
        supported.wf(),
    ensures
        ({
            let keys = order::keys(calls@);
            let work = total_work(*supported, keys);
            match displays {
                Ok(displays) => {
                    &&& work <= old(budget).remaining
                    &&& final(budget).remaining == old(budget).remaining - work
                    &&& order::strictly_increasing(displays@)
                    &&& forall|display: Seq<char>| #[trigger]
                        order::keys(displays@).contains(display) <==> collapsed_shows(
                            *supported,
                            keys,
                            display,
                        )
                },
                Err(_) => work > old(budget).remaining,
            }
        }),
{
    let ghost keys = order::keys(calls@);
    let mut displays: Vec<String> = Vec::new();
    let mut i: usize = 0;
    assert(keys.take(0) =~= Seq::<CallKey>::empty());
    while i < calls.len()
        invariant
            i <= calls.len(),
            supported.wf(),
            keys == order::keys(calls@),
            total_work(*supported, keys.take(i as int)) + budget.remaining == old(
                budget,
            ).remaining,
            order::strictly_increasing(displays@),
            forall|display: Seq<char>| #[trigger]
                order::keys(displays@).contains(display) <==> collapsed_shows(
                    *supported,
                    keys.take(i as int),
                    display,
                ),
        decreases calls.len() - i,
    {
        let call = &calls[i];
        let ghost key = call.key();
        let ghost seen = keys.take(i as int);
        let ghost now = keys.take(i + 1);
        let ghost before = displays@;
        proof {
            assert(now.drop_last() =~= seen);
            assert(now.last() == key);
            lemma_total_work_monotone(*supported, keys, i + 1);
            lemma_collapsed_step(*supported, seen, key);
            assert(now =~= seen.push(key));
        }
        match supported.signatures(call.kind, call.name()) {
            None => {},
            Some(signatures) => {
                let more = match displays_for_call(call, signatures, budget) {
                    Ok(more) => more,
                    Err(_) => {
                        return Err(BudgetExceeded);
                    },
                };
                extend_distinct(&mut displays, more);
            },
        }
        i = i + 1;
    }
    assert(keys.take(keys.len() as int) =~= keys);
    Ok(displays)
}

/// Adds every display of `more`.
fn extend_distinct(displays: &mut Vec<String>, more: Vec<String>)
    requires
        order::strictly_increasing(old(displays)@),
    ensures
        order::strictly_increasing(final(displays)@),
        forall|display: Seq<char>| #[trigger]
            order::keys(final(displays)@).contains(display) <==> order::keys(
                old(displays)@,
            ).contains(display) || order::keys(more@).contains(display),
{
    let mut i: usize = 0;
    while i < more.len()
        invariant
            i <= more.len(),
            order::strictly_increasing(displays@),
            forall|display: Seq<char>| #[trigger]
                order::keys(displays@).contains(display) <==> order::keys(
                    old(displays)@,
                ).contains(display) || order::keys(more@).take(i as int).contains(display),
        decreases more.len() - i,
    {
        let display = more[i].clone();
        let ghost before = displays@;
        let ghost all = order::keys(more@);
        proof {
            order::lemma_distinct_insert(displays@, display);
            assert forall|d: Seq<char>| #[trigger]
                all.take(i + 1).contains(d) == (all.take(i as int).contains(d) || d
                == display@) by {
                assert(all.take(i + 1) =~= all.take(i as int).push(display@));
                if all.take(i as int).contains(d) {
                    let k = choose|k: int| 0 <= k < i && all.take(i as int)[k] == d;
                    assert(all.take(i + 1)[k] == d);
                }
                if d == display@ {
                    assert(all.take(i + 1)[i as int] == d);
                }
                if all.take(i + 1).contains(d) && d != display@ {
                    let now = all.take(i + 1);
                    let k = choose|k: int| 0 <= k < now.len() && now[k] == d;
                    assert(all.take(i as int)[k] == d);
                }
            }
        }
        order::insert_distinct(displays, display);
        i = i + 1;
    }
    assert(order::keys(more@).take(more@.len() as int) =~= order::keys(more@));
}

proof fn lemma_total_work_monotone(supported: SupportedFuncs, calls: Seq<CallKey>, i: int)
    requires
        0 <= i <= calls.len(),
    ensures
        total_work(supported, calls.take(i)) <= total_work(supported, calls),
    decreases calls.len() - i,
{
    if i < calls.len() {
        lemma_total_work_monotone(supported, calls, i + 1);
        assert(calls.take(i + 1).drop_last() =~= calls.take(i));
    } else {
        assert(calls.take(i) =~= calls);
    }
}

proof fn lemma_collapsed_step(supported: SupportedFuncs, calls: Seq<CallKey>, call: CallKey)
    ensures
        forall|display: Seq<char>| #[trigger]
            collapsed_shows(supported, calls.push(call), display) <==> (collapsed_shows(
                supported,
                calls,
                display,
            ) || (supported.has(call) && call_shows(
                call.kind,
                call.name,
                supported.at(call).to_set(),
                display,
            ))),
{
    let longer = calls.push(call);
    assert(longer[calls.len() as int] == call);
    assert(longer.contains(call));
    assert forall|other: CallKey| calls.contains(other) implies #[trigger] longer.contains(
        other,
    ) by {
        let i = choose|i: int| 0 <= i < calls.len() && calls[i] == other;
        assert(longer[i] == other);
    }
    assert forall|other: CallKey| #[trigger] longer.contains(other) && other != call implies
    calls.contains(other) by {
        let i = choose|i: int| 0 <= i < longer.len() && longer[i] == other;
        assert(calls[i] == other);
    }
    assert forall|display: Seq<char>| #[trigger]
        collapsed_shows(supported, longer, display) == (collapsed_shows(
        supported,
        calls,
        display,
    ) || (supported.has(call) && call_shows(
        call.kind,
        call.name,
        supported.at(call).to_set(),
        display,
    ))) by {
        if collapsed_shows(supported, longer, display) {
            let other = choose|other: CallKey| #[trigger]
                longer.contains(other) && supported.has(other) && call_shows(
                    other.kind,
                    other.name,
                    supported.at(other).to_set(),
                    display,
                );
            if other != call {
                assert(calls.contains(other));
            }
        }
        if collapsed_shows(supported, calls, display) {
            let other = choose|other: CallKey| #[trigger]
                calls.contains(other) && supported.has(other) && call_shows(
                    other.kind,
                    other.name,
                    supported.at(other).to_set(),
                    display,
                );
            assert(longer.contains(other));
        }
    }
}

/// The displays of several calls with signatures as they are registered.
pub fn raw_displays(supported: &SupportedFuncs, calls: &Vec<SupportedCall>) -> (displays: Vec<
    String,
>)
    requires
        supported.wf(),
    ensures
        order::strictly_increasing(displays@),
        forall|display: Seq<char>| #[trigger]
            order::keys(displays@).contains(display) <==> raw_shows(
                *supported,
                order::keys(calls@),
                display,
            ),
{
    let ghost keys = order::keys(calls@);
    let mut displays: Vec<String> = Vec::new();
    let mut i: usize = 0;
    while i < calls.len()
        invariant
            i <= calls.len(),
            supported.wf(),
            keys == order::keys(calls@),
            order::strictly_increasing(displays@),
            forall|display: Seq<char>| #[trigger]
                order::keys(displays@).contains(display) ==> raw_shows(*supported, keys, display),
            forall|j: int, signature: SupportedSignature|
                0 <= j < i && supported.has(#[trigger] keys[j]) && #[trigger] supported.at(
                    keys[j],
                ).contains(signature) ==> order::keys(displays@).contains(
                    signature_text(keys[j].kind, keys[j].name, signature),
                ),
        decreases calls.len() - i,
    {
        let call = &calls[i];
        let ghost key = keys[i as int];
        assert(key == call.key());
        match supported.signatures(call.kind, call.name()) {
            None => {},
            Some(signatures) => {
                let mut k: usize = 0;
                while k < signatures.len()
                    invariant
                        k <= signatures.len(),
                        i < calls.len(),
                        supported.wf(),
                        keys == order::keys(calls@),
                        key == keys[i as int],
                        *call == calls@[i as int],
                        key == call.key(),
                        supported.has(key),
                        signatures@ == supported.at(key),
                        order::strictly_increasing(displays@),
                        forall|display: Seq<char>| #[trigger]
                            order::keys(displays@).contains(display) ==> raw_shows(
                                *supported,
                                keys,
                                display,
                            ),
                        forall|j: int, signature: SupportedSignature|
                            0 <= j < i && supported.has(#[trigger] keys[j])
                                && #[trigger] supported.at(keys[j]).contains(signature)
                                ==> order::keys(displays@).contains(
                                signature_text(keys[j].kind, keys[j].name, signature),
                            ),
                        forall|m: int|
                            0 <= m < k ==> order::keys(displays@).contains(
                                signature_text(key.kind, key.name, #[trigger] signatures@[m]),
                            ),
                    decreases signatures.len() - k,
                {
                    let display = format_signature(call, &signatures[k]);
                    proof {
                        order::lemma_distinct_insert(displays@, display);
                        assert(keys.contains(key));
                        assert(supported.at(key).contains(signatures@[k as int]));
                        assert(raw_shows(*supported, keys, display@));
                    }
                    order::insert_distinct(&mut displays, display);
                    k = k + 1;
                }
                proof {
                    assert forall|signature: SupportedSignature|
                        supported.at(key).contains(signature) implies order::keys(
                        displays@,
                    ).contains(signature_text(key.kind, key.name, signature)) by {
                        let m = choose|m: int|
                            0 <= m < signatures@.len() && signatures@[m] == signature;
                        assert(order::keys(displays@).contains(
                            signature_text(key.kind, key.name, signatures@[m]),
                        ));
                    }
                }
            },
        }
        i = i + 1;
    }
    proof {
        assert forall|display: Seq<char>| #[trigger]
            order::keys(displays@).contains(display) == raw_shows(*supported, keys, display) by {
            if raw_shows(*supported, keys, display) {
                let (call, signature) = choose|call: CallKey, signature: SupportedSignature|
                    #![trigger keys.contains(call), supported.at(call).contains(signature)]
                    keys.contains(call) && supported.has(call) && supported.at(call).contains(
                        signature,
                    ) && display == signature_text(call.kind, call.name, signature);
                let j = choose|j: int| 0 <= j < keys.len() && keys[j] == call;
                assert(supported.at(keys[j]).contains(signature));
            }
        }
    }
    displays
}

/// Presents the registry signatures for one or more possible call targets.
///
/// Displays are deduplicated and sorted across every target; calls without a registry entry show
/// nothing. At most two displays are returned, followed by `... [N more]` when there are more.
pub fn present_supported_signatures(supported: &SupportedFuncs, calls: &Vec<SupportedCall>) -> (
shown: Vec<String>)
    requires
        supported.wf(),
    ensures
        exists|displays: Seq<Seq<char>>| #[trigger]
            is_listing(*supported, distinct_calls(calls@), displays) && order::keys(shown@)
                == summary(displays),
{
    let mut distinct: Vec<SupportedCall> = Vec::new();
    let mut i: usize = 0;
    assert(calls@.take(0) =~= Seq::<SupportedCall>::empty());
    while i < calls.len()
        invariant
            i <= calls.len(),
            order::strictly_increasing(distinct@),
            order::keys(distinct@) == distinct_calls(calls@.take(i as int)),
        decreases calls.len() - i,
    {
        let ghost more = calls@.take(i + 1);
        let call = calls[i].copied();
        proof {
            assert(more.drop_last() =~= calls@.take(i as int));
            assert(more.last() == calls@[i as int]);
            order::lemma_distinct_sort(calls@.take(i as int));
            order::lemma_distinct_insert(distinct@, call);
            order::lemma_distinct_insert(
                order::distinct_sort(calls@.take(i as int)),
                calls@[i as int],
            );
        }
        let ghost before = distinct@;
        order::insert_distinct(&mut distinct, call);
        proof {
            order::lemma_strictly_increasing_unique(distinct@, order::distinct_sort(more));
        }
        i = i + 1;
    }
    assert(calls@.take(calls@.len() as int) =~= calls@);
    let mut budget = PresentationBudget::new();
    let displays = match collapsed_displays(supported, &distinct, &mut budget) {
        Ok(displays) => displays,
        Err(_) => raw_displays(supported, &distinct),
    };
    proof {
        assert(is_listing(*supported, distinct_calls(calls@), order::keys(displays@)));
    }
    summarize(displays)
}

} // verus!
