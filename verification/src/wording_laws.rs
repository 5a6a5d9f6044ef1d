//! How signatures, paths and lines read.

use vstd::prelude::*;

use crate::chalk;
use crate::chalk::{ChalkClassRelation, ModuleOrigin};
use crate::facts;
use crate::ignores;
use crate::paths;
use crate::presentation;
use crate::provenance;
use crate::provenance::{CallDefinitionOriginKind, CallTargetKind, Decorator};
use crate::semantic::{Db, Definition, File, Module};
use crate::supported_functions::{CallKind, SupportedSignature, SupportedTy};
use crate::text;

verus! {

// ---------------------------------------------------------------------------------------------
// Types
// ---------------------------------------------------------------------------------------------

/// The text of a registry type with its own flag.
pub open spec fn text_of(ty: SupportedTy) -> Seq<char> {
    presentation::tree_text(ty@, ty@.nullable)
}

/// The text of a registry type without a mark for `None`.
pub open spec fn bare_text(ty: SupportedTy) -> Seq<char> {
    presentation::tree_text(ty@, false)
}

/// A type that accepts `None` reads as the same type with ` | None` behind it; `None` itself reads
/// as `None` either way.
pub proof fn law_nullable_types_say_so(ty: SupportedTy)
    ensures
        ty is NoneType ==> text_of(ty) == "None"@,
        !(ty is NoneType) && ty@.nullable ==> text_of(ty) == bare_text(ty) + " | None"@,
        !ty@.nullable ==> text_of(ty) == bare_text(ty),
{
}

/// Simple types read as Python writes them.
pub proof fn law_simple_types_read_by_name(ty: SupportedTy)
    ensures
        match ty {
            SupportedTy::Any { .. } => bare_text(ty) == "Any"@,
            SupportedTy::Bool { .. } => bare_text(ty) == "bool"@,
            SupportedTy::Bytes { .. } => bare_text(ty) == "bytes"@,
            SupportedTy::Date { .. } => bare_text(ty) == "date"@,
            SupportedTy::DateTime { .. } => bare_text(ty) == "datetime"@,
            SupportedTy::Float { .. } => bare_text(ty) == "float"@,
            SupportedTy::HashlibHash { .. } => bare_text(ty) == "hashlib.Hash"@,
            SupportedTy::Int { .. } => bare_text(ty) == "int"@,
            SupportedTy::Json { .. } => bare_text(ty) == "json"@,
            SupportedTy::NoneType { .. } => bare_text(ty) == "None"@,
            SupportedTy::ReMatch { .. } => bare_text(ty) == "Match"@,
            SupportedTy::RePattern { .. } => bare_text(ty) == "Pattern"@,
            SupportedTy::RequestsHttpResponse { .. } => bare_text(ty) == "RequestsHttpResponse"@,
            SupportedTy::SequenceMatcher { .. } => bare_text(ty) == "SequenceMatcher"@,
            SupportedTy::Str { .. } => bare_text(ty) == "str"@,
            SupportedTy::Time { .. } => bare_text(ty) == "time"@,
            SupportedTy::Timedelta { .. } => bare_text(ty) == "timedelta"@,
            SupportedTy::TimeZone { .. } => bare_text(ty) == "timezone"@,
            SupportedTy::Other { name, .. } => bare_text(ty) == name@,
            SupportedTy::Class { module, name, .. } => bare_text(ty) == "class["@ + module@ + "."@
                + name@ + "]"@,
            SupportedTy::Module { name, .. } => bare_text(ty) == "module["@ + name@ + "]"@,
            SupportedTy::SubClassOf { ty_name, .. } => bare_text(ty) == "subclass["@ + ty_name@
                + "]"@,
            _ => true,
        },
{
}

/// Containers read by their name with what they hold in brackets, each part with its own mark for
/// `None`.
pub proof fn law_containers_read_with_what_they_hold(ty: SupportedTy)
    ensures
        match ty {
            SupportedTy::Counter { items, .. } => bare_text(ty) == "Counter["@ + text_of(*items)
                + "]"@,
            SupportedTy::FrozenSet { items, .. } => bare_text(ty) == "frozenset["@ + text_of(*items)
                + "]"@,
            SupportedTy::Generator { items, .. } => bare_text(ty) == "Generator["@ + text_of(*items)
                + "]"@,
            SupportedTy::Iterable { items, .. } => bare_text(ty) == "Iterable["@ + text_of(*items)
                + "]"@,
            SupportedTy::List { items, .. } => bare_text(ty) == "list["@ + text_of(*items) + "]"@,
            SupportedTy::SetType { items, .. } => bare_text(ty) == "set["@ + text_of(*items) + "]"@,
            SupportedTy::Dict { key_type, value_type, .. } => bare_text(ty) == "dict["@ + (text_of(
                *key_type,
            ) + ", "@ + text_of(*value_type)) + "]"@,
            _ => true,
        },
{
    match ty {
        SupportedTy::Counter { items, .. } => lemma_one_part(*items),
        SupportedTy::FrozenSet { items, .. } => lemma_one_part(*items),
        SupportedTy::Generator { items, .. } => lemma_one_part(*items),
        SupportedTy::Iterable { items, .. } => lemma_one_part(*items),
        SupportedTy::List { items, .. } => lemma_one_part(*items),
        SupportedTy::SetType { items, .. } => lemma_one_part(*items),
        SupportedTy::Dict { key_type, value_type, .. } => {
            let parts = seq![key_type@, value_type@];
            lemma_one_part(*key_type);
            assert(parts.drop_last() =~= seq![key_type@]);
            assert(parts.last() == value_type@);
            assert(presentation::parts_text(parts) == text_of(*key_type) + ", "@ + text_of(
                *value_type,
            ));
        },
        _ => {},
    }
}

proof fn lemma_one_part(item: SupportedTy)
    ensures
        presentation::parts_text(seq![item@]) == text_of(item),
{
    assert(seq![item@][0] == item@);
}

/// An argument reads as its type, with its name in front where it has one and a mark behind it where
/// it has a default.
pub proof fn law_arguments_read_with_name_and_default(name: Seq<char>, ty: Seq<char>)
    ensures
        presentation::arg_text(None, false, ty) == ty,
        presentation::arg_text(None, true, ty) == ty + " = ..."@,
        presentation::arg_text(Some(name), false, ty) == name + ": "@ + ty,
        presentation::arg_text(Some(name), true, ty) == name + ": "@ + ty + " = ..."@,
{
}

/// A signature reads as a call with all of its arguments in order; of a method the receiver is left
/// out.
pub proof fn law_signatures_read_as_calls(
    kind: CallKind,
    name: Seq<char>,
    signature: SupportedSignature,
    args: Seq<Seq<char>>,
)
    requires
        ({
            let skipped: int = if kind == CallKind::Method && signature.args@.len() > 0 {
                1
            } else {
                0
            };
            &&& args.len() == signature.args@.len() - skipped
            &&& forall|i: int|
                0 <= i < args.len() ==> (#[trigger] args[i]) == presentation::arg_text(
                    signature.args@[i + skipped].label(),
                    signature.args@[i + skipped].has_default,
                    text_of(signature.args@[i + skipped].ty),
                )
        }),
    ensures
        presentation::signature_text(kind, name, signature) == name + "("@ + text::joined(
            args,
            ", "@,
        ) + ")"@,
{
    let shown = presentation::presented(kind, signature);
    let texts = Seq::new(
        shown.len(),
        |k: int|
            presentation::arg_text(
                shown[k].label(),
                shown[k].has_default,
                presentation::tree_text(shown[k].ty@, shown[k].ty@.nullable),
            ),
    );
    assert(texts =~= args);
}

/// The first two displays are shown, and of the rest how many there are.
pub proof fn law_summaries_count_the_rest(displays: Seq<Seq<char>>, i: int)
    requires
        0 <= i < displays.len(),
    ensures
        ({
            let shown = presentation::summary(displays);
            &&& i < 2 ==> shown[i] == displays[i]
            &&& displays.len() > 2 ==> shown.len() == 2 + 1 && shown.last()
                == "... ["@ + text::decimal((displays.len() - 2) as nat) + " more]"@
            &&& displays.len() <= 2 ==> shown == displays
        }),
{
}

// ---------------------------------------------------------------------------------------------
// Paths and lines
// ---------------------------------------------------------------------------------------------

proof fn lemma_split_name(text: Seq<char>)
    requires
        !text.contains('/'),
    ensures
        paths::split(text) == seq![text],
    decreases text.len(),
{
    if text.len() > 0 {
        let init = text.drop_last();
        assert(forall|i: int| 0 <= i < init.len() ==> #[trigger] init[i] == text[i]);
        if init.contains('/') {
            let i = choose|i: int| 0 <= i < init.len() && init[i] == '/';
            assert(text[i] == '/');
        }
        lemma_split_name(init);
        assert(text.last() == text[text.len() - 1]);
        assert(paths::split(text) =~= seq![text]) by {
            assert(seq![init].drop_last() =~= Seq::empty());
            assert(init.push(text.last()) =~= text);
        }
    } else {
        assert(text =~= Seq::empty());
    }
}

/// A text is split at its slashes: what stands in front of a slash and what stands behind it are
/// split on their own.
pub proof fn law_paths_are_split_at_slashes(before: Seq<char>, after: Seq<char>)
    ensures
        paths::split(before + "/"@ + after) == paths::split(before) + paths::split(after),
        !before.contains('/') ==> paths::split(before) == seq![before],
    decreases after.len(),
{
    reveal_strlit("/");
    let whole = before + "/"@ + after;
    if !before.contains('/') {
        lemma_split_name(before);
    }
    if after.len() == 0 {
        assert(whole.drop_last() =~= before);
        assert(whole.last() == '/');
        assert(paths::split(after) =~= seq![Seq::<char>::empty()]);
        assert(paths::split(whole) =~= paths::split(before) + paths::split(after));
    } else {
        let init = after.drop_last();
        law_paths_are_split_at_slashes(before, init);
        lemma_split_some(init);
        assert(whole.drop_last() =~= before + "/"@ + init);
        assert(whole.last() == after.last());
        let left = paths::split(before);
        let right = paths::split(init);
        assert((left + right).last() == right.last());
        assert((left + right).drop_last() =~= left + right.drop_last());
        assert(paths::split(whole) =~= left + paths::split(after));
    }
}

proof fn lemma_split_some(text: Seq<char>)
    ensures
        paths::split(text).len() > 0,
    decreases text.len(),
{
    if text.len() > 0 {
        lemma_split_some(text.drop_last());
    }
}

/// Going along names: one after the other; `.` and an empty name stay, `..` goes up, but not beyond
/// the top, and any other name goes down.
pub proof fn law_paths_go_name_by_name(
    path: Seq<Seq<char>>,
    names: Seq<Seq<char>>,
    name: Seq<char>,
)
    ensures
        paths::go_along(path, Seq::empty()) == path,
        ({
            let there = paths::go_along(path, names);
            let next = paths::go_along(path, names.push(name));
            &&& name.len() == 0 || name == "."@ ==> next == there
            &&& name == ".."@ && there.len() > 0 ==> next == there.drop_last()
            &&& name == ".."@ && there.len() == 0 ==> next == there
            &&& name.len() > 0 && name != "."@ && name != ".."@ ==> next == there.push(name)
        }),
{
    reveal_strlit(".");
    reveal_strlit("..");
    assert("."@.len() == 1 && ".."@.len() == 2);
    assert(names.push(name).drop_last() =~= names);
}

/// A text that begins with a slash means the same path everywhere; any other starts at the
/// directory.
pub proof fn law_absolute_paths_mean_the_same_everywhere(
    text: Seq<char>,
    directory: Seq<Seq<char>>,
    other: Seq<Seq<char>>,
)
    ensures
        text.len() > 0 && text[0] == '/' ==> paths::resolved(text, directory) == paths::resolved(
            text,
            other,
        ) && paths::resolved(text, directory) == paths::go_along(
            Seq::empty(),
            paths::split(text),
        ),
        text.len() == 0 || text[0] != '/' ==> paths::resolved(text, directory) == paths::go_along(
            directory,
            paths::split(text),
        ),
{
}

/// The text of a path means that path, in whatever directory it is read.
pub proof fn law_path_texts_mean_their_path(path: Seq<Seq<char>>, directory: Seq<Seq<char>>)
    requires
        paths::is_path(path),
    ensures
        paths::resolved(paths::path_text(path), directory) == path,
{
    reveal_strlit("/");
    let whole = paths::path_text(path);
    assert(whole[0] == '/');
    law_paths_are_split_at_slashes(Seq::empty(), text::joined(path, "/"@));
    assert(Seq::<char>::empty() + "/"@ + text::joined(path, "/"@) =~= whole);
    lemma_split_name(Seq::empty());
    let names = paths::split(text::joined(path, "/"@));
    let all = seq![Seq::<char>::empty()] + names;
    if path.len() == 0 {
        assert(text::joined(path, "/"@) =~= Seq::empty());
        assert(names =~= seq![Seq::<char>::empty()]);
        assert(all.drop_last() =~= seq![Seq::<char>::empty()]);
        assert(seq![Seq::<char>::empty()].drop_last() =~= Seq::empty());
        reveal_with_fuel(paths::go_along, 3);
        assert(path =~= Seq::empty());
    } else {
        lemma_split_joined(path);
        lemma_go_along(path);
    }
}

proof fn lemma_split_joined(path: Seq<Seq<char>>)
    requires
        paths::is_path(path),
        path.len() > 0,
    ensures
        paths::split(text::joined(path, "/"@)) == path,
    decreases path.len(),
{
    assert(paths::is_name(path[path.len() - 1]));
    lemma_split_name(path.last());
    if path.len() == 1 {
        assert(path =~= seq![path[0]]);
    } else {
        let init = path.drop_last();
        assert forall|i: int| 0 <= i < init.len() implies paths::is_name(#[trigger] init[i]) by {
            assert(paths::is_name(path[i]));
        }
        lemma_split_joined(init);
        law_paths_are_split_at_slashes(text::joined(init, "/"@), path.last());
        assert(init + seq![path.last()] =~= path);
    }
}

proof fn lemma_go_along(path: Seq<Seq<char>>)
    requires
        paths::is_path(path),
    ensures
        paths::go_along(Seq::empty(), seq![Seq::<char>::empty()] + path) == path,
    decreases path.len(),
{
    let all = seq![Seq::<char>::empty()] + path;
    if path.len() == 0 {
        assert(all =~= seq![Seq::<char>::empty()]);
        assert(all.drop_last() =~= Seq::empty());
        reveal_with_fuel(paths::go_along, 2);
        assert(path =~= Seq::empty());
    } else {
        let init = path.drop_last();
        assert forall|i: int| 0 <= i < init.len() implies paths::is_name(#[trigger] init[i]) by {
            assert(paths::is_name(path[i]));
        }
        lemma_go_along(init);
        assert(all.drop_last() =~= seq![Seq::<char>::empty()] + init);
        assert(all.last() == path.last());
        assert(paths::is_name(path[path.len() - 1]));
        assert(init.push(path.last()) =~= path);
    }
}

proof fn lemma_split_lines_some(text: Seq<char>)
    ensures
        ignores::split_lines(text).len() > 0,
    decreases text.len(),
{
    if text.len() > 0 {
        lemma_split_lines_some(text.drop_last());
    }
}

proof fn lemma_split_lines(before: Seq<char>, after: Seq<char>)
    ensures
        ignores::split_lines(before.push('\n') + after) == ignores::split_lines(before)
            + ignores::split_lines(after),
    decreases after.len(),
{
    let whole = before.push('\n') + after;
    if after.len() == 0 {
        assert(whole =~= before.push('\n'));
        assert(whole.drop_last() =~= before);
        assert(ignores::split_lines(after) =~= seq![Seq::<char>::empty()]);
        assert(ignores::split_lines(whole) =~= ignores::split_lines(before)
            + ignores::split_lines(after));
    } else {
        let init = after.drop_last();
        lemma_split_lines(before, init);
        lemma_split_lines_some(init);
        assert(whole.drop_last() =~= before.push('\n') + init);
        assert(whole.last() == after.last());
        let left = ignores::split_lines(before);
        let right = ignores::split_lines(init);
        assert((left + right).last() == right.last());
        assert((left + right).drop_last() =~= left + right.drop_last());
        assert(ignores::split_lines(whole) =~= left + ignores::split_lines(after));
    }
}

proof fn lemma_split_line(line: Seq<char>)
    requires
        !line.contains('\n'),
    ensures
        ignores::split_lines(line) == seq![line],
    decreases line.len(),
{
    if line.len() > 0 {
        let init = line.drop_last();
        if init.contains('\n') {
            let i = choose|i: int| 0 <= i < init.len() && init[i] == '\n';
            assert(line[i] == '\n');
        }
        lemma_split_line(init);
        assert(line.last() == line[line.len() - 1]);
        assert(seq![init].drop_last() =~= Seq::empty());
        assert(init.push(line.last()) =~= line);
        assert(ignores::split_lines(line) =~= seq![line]);
    } else {
        assert(line =~= Seq::empty());
    }
}

/// The lines of a text: a line that a line feed ends comes first, without the carriage return at its
/// end, and then those of the rest; a text without a line feed is one line, or none if it is empty.
pub proof fn law_texts_are_read_line_by_line(line: Seq<char>, rest: Seq<char>)
    requires
        !line.contains('\n'),
    ensures
        ignores::lines_of(line.push('\n') + rest) == seq![
            if line.len() > 0 && line.last() == '\r' {
                line.drop_last()
            } else {
                line
            },
        ] + ignores::lines_of(rest),
        ignores::lines_of(line) == if line.len() > 0 {
            seq![line]
        } else {
            Seq::empty()
        },
{
    lemma_split_line(line);
    lemma_split_lines(line, rest);
    lemma_split_lines_some(rest);
    let parts = ignores::split_lines(rest);
    let all = seq![line] + parts;
    assert(ignores::split_lines(line.push('\n') + rest) == all);
    assert(all.last() == parts.last());
    let ended = Seq::new((parts.len() - 1) as nat, |i: int| ignores::line_content(parts[i]));
    let all_ended = Seq::new((all.len() - 1) as nat, |i: int| ignores::line_content(all[i]));
    assert(all_ended =~= seq![ignores::line_content(line)] + ended);
    assert(ignores::lines_of(line.push('\n') + rest) =~= seq![ignores::line_content(line)]
        + ignores::lines_of(rest));
    if line.len() > 0 {
        assert(ignores::lines_of(line) =~= seq![line]);
    } else {
        assert(ignores::lines_of(line) =~= Seq::empty());
    }
}

// ---------------------------------------------------------------------------------------------
// Decorators
// ---------------------------------------------------------------------------------------------

/// Whether a definition is a function directly in a module, by which resolvers are made.
pub open spec fn makes_them(db: Db, definition: Definition) -> bool {
    let data = db.definition(definition);
    &&& provenance::definition_kind(db, definition) == Some(
        CallDefinitionOriginKind::TopLevelFunction,
    )
    &&& facts::is_resolver_symbol(
        provenance::file_owner(db, data.file),
        provenance::file_module_name(db, data.file),
        data.name@,
    )
}

/// A decorator makes resolvers exactly if it leads to functions all of which make them, and surely
/// nowhere else; or, where it leads to no function, if it is accounted for by symbols of modules,
/// all of which make them and of which there is one.
pub proof fn law_decorators_make_resolvers_whatever_they_are(
    db: Db,
    file: File,
    decorator: Decorator,
)
    ensures
        ({
            let callee = provenance::decorator_callee(decorator);
            let state = provenance::collect_callee(db, callee);
            let modules = provenance::decorator_modules(db, file, callee);
            let has_function = exists|i: int|
                0 <= i < state.targets.len() && (#[trigger] state.targets[i]).kind
                    == CallTargetKind::Function;
            let made = facts::makes_resolvers(db, file, decorator);
            &&& decorator matches Decorator::Plain(plain) ==> callee == plain
            &&& decorator matches Decorator::Factory(factory) ==> callee == factory
            &&& has_function ==> (made <==> !state.unresolved && forall|i: int|
                0 <= i < state.targets.len() ==> (#[trigger] state.targets[i]).kind
                    == CallTargetKind::Function && makes_them(db, state.targets[i].definition))
            &&& !has_function ==> (made <==> modules.len() > 0
                && provenance::decorator_modules_complete(db, callee) && forall|i: int|
                0 <= i < modules.len() ==> facts::is_resolver_symbol(
                    (#[trigger] modules[i]).owner,
                    modules[i].module,
                    modules[i].symbol,
                ))
        }),
{
    let callee = provenance::decorator_callee(decorator);
    let state = provenance::collect_callee(db, callee);
    let definitions = provenance::function_definitions(state.targets);
    lemma_function_definitions(db, state.targets);
    if exists|i: int|
        0 <= i < state.targets.len() && (#[trigger] state.targets[i]).kind
            == CallTargetKind::Function {
        if facts::makes_resolvers(db, file, decorator) {
            assert(!provenance::decorator_unresolved(state));
            assert(!state.unresolved);
            assert forall|i: int| 0 <= i < state.targets.len() implies (
            #[trigger] state.targets[i]).kind == CallTargetKind::Function && makes_them(
                db,
                state.targets[i].definition,
            ) by {
                assert(definitions.contains(state.targets[i].definition));
                let k = choose|k: int|
                    0 <= k < definitions.len() && definitions[k] == state.targets[i].definition;
                assert(facts::is_resolver_definition(db, definitions[k]));
            }
        }
        if !state.unresolved && forall|i: int|
            0 <= i < state.targets.len() ==> (#[trigger] state.targets[i]).kind
                == CallTargetKind::Function && makes_them(db, state.targets[i].definition) {
            assert forall|k: int| 0 <= k < definitions.len() implies facts::is_resolver_definition(
                db,
                #[trigger] definitions[k],
            ) by {
                assert(definitions.contains(definitions[k]));
                let i = choose|i: int|
                    0 <= i < state.targets.len() && (#[trigger] state.targets[i]).kind
                        == CallTargetKind::Function && state.targets[i].definition
                        == definitions[k];
                assert(makes_them(db, state.targets[i].definition));
            }
            assert(!provenance::decorator_unresolved(state));
            assert(facts::makes_resolvers(db, file, decorator));
        }
    } else {
        assert(definitions.len() == 0);
    }
}

proof fn lemma_function_definitions(db: Db, targets: Seq<provenance::CallTarget>)
    ensures
        ({
            let found = provenance::function_definitions(targets);
            &&& forall|definition: Definition| #[trigger]
                found.contains(definition) <==> exists|i: int|
                    0 <= i < targets.len() && (#[trigger] targets[i]).kind
                        == CallTargetKind::Function && targets[i].definition == definition
            &&& found.len() > 0 <==> exists|i: int|
                0 <= i < targets.len() && (#[trigger] targets[i]).kind == CallTargetKind::Function
        }),
    decreases targets.len(),
{
    let found = provenance::function_definitions(targets);
    if targets.len() > 0 {
        let init = targets.drop_last();
        let at = targets.len() - 1;
        let before = provenance::function_definitions(init);
        lemma_function_definitions(db, init);
        assert(targets[at] == targets.last());
        assert(forall|i: int| 0 <= i < init.len() ==> #[trigger] init[i] == targets[i]);
        assert forall|definition: Definition| #[trigger] found.contains(definition) == exists|i: int|
            0 <= i < targets.len() && (#[trigger] targets[i]).kind == CallTargetKind::Function
                && targets[i].definition == definition by {
            if before.contains(definition) {
                let k = choose|k: int| 0 <= k < before.len() && before[k] == definition;
                assert(found[k] == definition);
                let i = choose|i: int|
                    0 <= i < init.len() && (#[trigger] init[i]).kind == CallTargetKind::Function
                        && init[i].definition == definition;
                assert(targets[i] == init[i]);
            }
            if targets[at].kind == CallTargetKind::Function && targets[at].definition
                == definition {
                assert(found[before.len() as int] == definition);
            }
            if found.contains(definition) && !before.contains(definition) {
                let k = choose|k: int| 0 <= k < found.len() && found[k] == definition;
                if k < before.len() {
                    assert(before[k] == definition);
                }
            }
            if exists|i: int|
                0 <= i < targets.len() && (#[trigger] targets[i]).kind == CallTargetKind::Function
                    && targets[i].definition == definition {
                let i = choose|i: int|
                    0 <= i < targets.len() && (#[trigger] targets[i]).kind
                        == CallTargetKind::Function && targets[i].definition == definition;
                if i < at {
                    assert(init[i] == targets[i]);
                }
            }
        }
        if found.len() > 0 {
            assert(found.contains(found[0]));
        }
        if exists|i: int|
            0 <= i < targets.len() && (#[trigger] targets[i]).kind == CallTargetKind::Function {
            let i = choose|i: int|
                0 <= i < targets.len() && (#[trigger] targets[i]).kind == CallTargetKind::Function;
            assert(found.contains(targets[i].definition));
        }
    }
}

/// A module is the one that a registry entry names only by its own name, and then as far as it is
/// installed: it is where the module that runs is, or the stub that ships with the type checker.
pub proof fn law_modules_are_known_by_name_and_owner(db: Db, module: Module, expected: Seq<char>)
    ensures
        ({
            let relation = chalk::module_relation(db, module, expected);
            let data = db.module(module);
            &&& data.name@ != expected ==> relation == ChalkClassRelation::NoMatch
            &&& data.name@ == expected ==> match data.file {
                None => relation == ChalkClassRelation::Unavailable,
                Some(file) => match chalk::owner_of(db, file, expected, Some(module)) {
                    ModuleOrigin::StandardLibrary => relation == ChalkClassRelation::Match,
                    ModuleOrigin::ThirdParty => relation == ChalkClassRelation::Match,
                    ModuleOrigin::FirstParty => relation == ChalkClassRelation::NoMatch,
                    ModuleOrigin::Extra => relation == ChalkClassRelation::NoMatch,
                    ModuleOrigin::Other => relation == ChalkClassRelation::NoMatch,
                    ModuleOrigin::Namespace => relation == ChalkClassRelation::Unavailable,
                    ModuleOrigin::Unresolved => relation == ChalkClassRelation::Unavailable,
                },
            }
        }),
{
}

} // verus!
