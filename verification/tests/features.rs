use ty_chalk::feature_calls::{
    refine_chalk_features_return_type, ArgumentMatch, BoundOverload, BoundParameter,
    ConstructorBinding, MatchedParameter,
};
use ty_chalk::feature_expressions::{
    chalk_relationship_row, infer_chalk_feature_path_type_expression,
    infer_chalk_feature_path_value_expression, infer_chalk_features_type_expression,
    infer_chalk_receiver_expression, ProtocolMemberType,
};
use ty_chalk::feature_paths::{
    chalk_if_then_else_refinements, resolve_chalk_feature_path_from, CalledFunction,
    ChalkIfThenElseRefinements, ChalkPathRefinement, ChalkRefinements, Comparator, Connective,
    Expression, ExpressionKind, FeaturePath, Manner, MissingMember, Operator, UnaryOperator,
};
use ty_chalk::feature_returns::{
    chalk_features_return_is_compatible, chalk_features_return_is_incomplete,
    chalk_missing_return_fields,
};
use ty_chalk::features::{
    chalk_feature_initializer_assignment, chalk_feature_member, chalk_feature_value_type,
    chalk_instance_member, chalk_resolved_union_inference_arm, chalk_row_type,
    chalk_symbolic_feature_type,
    chalk_symbolic_inner, in_chalk_features_class, is_chalk_features_class,
    is_chalk_features_decorator, is_chalk_features_symbol, Scope, Shown, Symbol, Symbols,
};
use ty_chalk::semantic::{
    Class, ClassBase, ClassData, Db, Declaration, Definedness, Field, FieldKind, File, FileData,
    Member, Module, ModuleData, SearchPath, SynthesizedProtocolKind, Type, TypeData, TypeKind,
    TypeVarBound, UnionParts,
};

fn plain(kind: TypeKind, nominal_class: Option<Class>) -> TypeData {
    TypeData {
        kind,
        nominal_class,
        is_none: false,
        is_enum: false,
        tuple: None,
        iterates: None,
        definition: None,
        members: Vec::new(),
        assignable_to: Vec::new(),
        inferable_to: Vec::new(),
        instance_members: Vec::new(),
        instance: None,
        parts: None,
    }
}

/// A picture that is being put together.
struct Picture {
    db: Db,
}

impl Picture {
    fn new() -> Self {
        let mut picture = Picture {
            db: Db {
                types: Vec::new(),
                classes: Vec::new(),
                modules: Vec::new(),
                files: Vec::new(),
                definitions: Vec::new(),
                runtime_modules: Vec::new(),
                unknown: Type { id: 0 },
            },
        };
        picture.add(plain(TypeKind::Dynamic, None));
        picture
    }

    fn add(&mut self, data: TypeData) -> Type {
        self.db.types.push(data);
        Type { id: self.db.types.len() - 1 }
    }

    fn file(&mut self, module: &str) -> File {
        let file = File { id: self.db.files.len() };
        self.db.modules.push(ModuleData {
            name: module.to_owned(),
            search_path: Some(SearchPath::ThirdParty),
            file: Some(file),
        });
        let module = Some(Module { id: self.db.modules.len() - 1 });
        self.db.files.push(FileData { path: "module.py".to_owned(), is_vendored: false, module });
        file
    }

    fn class(&mut self, name: &str, module: &str) -> Class {
        let file = self.file(module);
        let class = Class { id: self.db.classes.len() };
        self.db.classes.push(ClassData {
            name: name.to_owned(),
            file,
            enclosing: vec![module.to_owned()],
            mro: vec![ClassBase::Class(class)],
            known: None,
            arguments: Vec::new(),
            is_static: true,
            generic: class,
            is_features: false,
            fields: Vec::new(),
            declarations: Vec::new(),
        });
        class
    }

    fn applied(&mut self, generic: Class, argument: Type) -> Class {
        let name = self.db.classes[generic.id].name.clone();
        let module = self.db.classes[generic.id].enclosing[0].clone();
        let class = self.class(&name, &module);
        self.db.classes[class.id].generic = generic;
        self.db.classes[class.id].arguments = vec![argument];
        class
    }

    fn instance(&mut self, class: Class) -> Type {
        self.add(plain(TypeKind::Instance, Some(class)))
    }

    fn literal(&mut self, class: Class) -> Type {
        self.add(plain(TypeKind::ClassLiteral { class }, None))
    }

    fn declare(&mut self, class: Class, name: &str, declared: Type) {
        let data = &mut self.db.classes[class.id];
        data.declarations.push(Declaration {
            name: name.to_owned(),
            is_annotated: true,
            is_class_var: false,
            is_init_var: false,
            declared: Some(declared),
        });
        data.fields.push(Field {
            name: name.to_owned(),
            declared,
            kind: FieldKind::Dataclass { init_only: false, init: true },
        });
    }

    fn protocol(&mut self, kind: SynthesizedProtocolKind, members: &[(&str, Type, Definedness)]) -> Type {
        let mut data = plain(
            TypeKind::ProtocolInstance {
                synthesized: Some(kind),
                interface: members.iter().map(|(name, _, _)| (*name).to_owned()).collect(),
            },
            None,
        );
        data.members = members
            .iter()
            .map(|(name, ty, definedness)| Member {
                name: (*name).to_owned(),
                ty: *ty,
                definedness: *definedness,
            })
            .collect();
        self.add(data)
    }
}

/// A class of users with an identifier, a nickname that may be absent, windowed counts and an
/// account with an owner.
struct Users {
    db: Db,
    scope: Scope,
    integer: Type,
    text: Type,
    absent: Type,
    primary: Type,
    windowed: Type,
    optional: Type,
    user: Type,
    user_class: Type,
    account: Type,
    user_data: Class,
    underscore: Type,
    decorator: Type,
    feature_set: Type,
    resolved: Type,
    union: Type,
    argument: Type,
}

fn users() -> Users {
    let mut picture = Picture::new();
    let integer_class = picture.class("int", "builtins");
    let text_class = picture.class("str", "builtins");
    let integer = picture.instance(integer_class);
    let text = picture.instance(text_class);
    let mut none = plain(TypeKind::Instance, None);
    none.is_none = true;
    let absent = picture.add(none);
    let primary_class = picture.class("Primary", "chalk.features");
    let primary_literal = picture.literal(primary_class);
    let primary_integer = picture.applied(primary_class, integer);
    let primary = picture.instance(primary_integer);
    let windowed_class = picture.class("Windowed", "chalk.streams");
    let windowed_literal = picture.literal(windowed_class);
    let windowed_integer = picture.applied(windowed_class, integer);
    let windowed = picture.instance(windowed_integer);
    let resolved_class = picture.class("Resolved", "ty_chalk_extensions");
    let resolved_literal = picture.literal(resolved_class);
    let shown_class = picture.class("Windowed", "ty_chalk_extensions");
    let shown_literal = picture.literal(shown_class);
    let mut union = plain(TypeKind::Union { elements: vec![text, absent] }, None);
    union.parts = Some(UnionParts { without_none: text, only_none: absent });
    let optional = picture.add(union);
    let underscore = picture.add(plain(TypeKind::Other, None));
    let decorator = picture.add(plain(TypeKind::FunctionLiteral, None));
    let feature_set = picture.add(plain(TypeKind::Other, None));

    let account_data = picture.class("Account", "models");
    let account = picture.instance(account_data);
    let user_data = picture.class("User", "models");
    let user = picture.instance(user_data);
    let user_class = picture.literal(user_data);
    for class in [account_data, user_data] {
        picture.db.classes[class.id].is_features = true;
    }
    picture.declare(user_data, "id", primary);
    picture.declare(user_data, "nickname", optional);
    picture.declare(user_data, "counts", windowed);
    picture.declare(user_data, "account", account);
    picture.declare(account_data, "owner", text);
    picture.db.classes[user_data.id].declarations.push(Declaration {
        name: "limit".to_owned(),
        is_annotated: true,
        is_class_var: true,
        is_init_var: false,
        declared: Some(integer),
    });
    picture.db.types[user_class.id].instance = Some(user);
    picture.db.types[user.id].instance_members.push(Member {
        name: "extra".to_owned(),
        ty: text,
        definedness: Definedness::AlwaysDefined,
    });
    picture.db.types[user.id].members.push(Member {
        name: "limit".to_owned(),
        ty: integer,
        definedness: Definedness::PossiblyUndefined,
    });

    let variable =
        picture.add(plain(TypeKind::TypeVar { bound: TypeVarBound::Unbound }, None));
    let resolved_variable = picture.applied(resolved_class, variable);
    let resolved_of_variable = picture.instance(resolved_variable);
    let either = picture.add(plain(
        TypeKind::Union { elements: vec![variable, resolved_of_variable] },
        None,
    ));
    let resolved_integer = picture.applied(resolved_class, integer);
    let resolved = picture.instance(resolved_integer);
    let mut inferable = plain(TypeKind::Instance, Some(resolved_integer));
    inferable.inferable_to.push(resolved_of_variable);
    let argument = picture.add(inferable);

    let symbol = |name: &str, ty: Type| Symbol { name: name.to_owned(), ty };
    let scope = Scope {
        symbols: Symbols {
            features: vec![
                symbol("Primary", primary_literal),
                symbol("features", decorator),
                symbol("Features", feature_set),
                symbol("_", underscore),
            ],
            streams: vec![symbol("Windowed", windowed_literal)],
            extensions: vec![
                symbol("Resolved", resolved_literal),
                symbol("Windowed", shown_literal),
            ],
            underscore: vec!["chunk".to_owned()],
        },
        is_class: true,
        enclosing: Some(user_class),
        row: None,
    };
    Users {
        db: picture.db,
        scope,
        integer,
        text,
        absent,
        primary,
        windowed,
        optional,
        user,
        user_class,
        account,
        user_data,
        underscore,
        decorator,
        feature_set,
        resolved,
        union: either,
        argument,
    }
}

fn expression(node: usize, kind: ExpressionKind) -> Expression {
    Expression { node, kind }
}

/// A name with the attributes of a dotted text; the nodes are numbered from the name on.
fn path(root: Type, members: &str) -> Expression {
    let mut value = expression(0, ExpressionKind::Name { ty: root });
    for (index, name) in members.split('.').enumerate() {
        value = expression(
            index + 1,
            ExpressionKind::Attribute { value: Box::new(value), name: name.to_owned() },
        );
    }
    value
}

fn none_literal() -> Expression {
    expression(90, ExpressionKind::NoneLiteral)
}

fn compare(left: Expression, operator: Comparator, right: Expression) -> Expression {
    expression(
        91,
        ExpressionKind::Compare { left: Box::new(left), operators: vec![operator], others: vec![right] },
    )
}

fn nothing_known() -> ChalkRefinements {
    ChalkRefinements { paths: Vec::new() }
}

/// What a shown type stands for, as a word and a type.
fn shown(value: &Shown) -> (&'static str, Option<Type>) {
    match value {
        Shown::Plain(ty) => ("plain", Some(*ty)),
        Shown::Resolved(ty) => ("resolved", Some(*ty)),
        Shown::Windowed(ty) => ("windowed", Some(*ty)),
        Shown::Tuple(_) => ("tuple", None),
        Shown::Unknown => ("unknown", None),
    }
}

#[test]
fn classes_of_features_are_told_by_their_decorator() {
    let users = users();
    assert!(is_chalk_features_class(&users.db, users.user_class));
    assert!(!is_chalk_features_class(&users.db, users.user));
    assert!(in_chalk_features_class(&users.db, &users.scope));
    assert!(is_chalk_features_symbol(&users.scope, users.underscore, "_"));
    assert!(!is_chalk_features_symbol(&users.scope, users.text, "_"));
    assert!(is_chalk_features_decorator(&users.scope, users.decorator, None));
    assert!(is_chalk_features_decorator(&users.scope, users.text, Some(users.decorator)));
    assert!(!is_chalk_features_decorator(&users.scope, users.text, None));
}

#[test]
fn values_of_features_are_what_they_hold() {
    let users = users();
    let value = |ty: Type| chalk_feature_value_type(&users.db, &users.scope, ty);
    assert_eq!(value(users.primary), users.integer);
    assert_eq!(value(users.text), users.text);
    let symbolic = |ty: Type| {
        let found = chalk_symbolic_feature_type(&users.db, &users.scope, ty);
        let (word, ty) = shown(&found);
        (word.to_owned(), ty)
    };
    assert_eq!(symbolic(users.windowed), ("windowed".to_owned(), Some(users.integer)));
    assert_eq!(symbolic(users.text), ("resolved".to_owned(), Some(users.text)));
    assert_eq!(
        chalk_symbolic_inner(&users.db, &users.scope, users.resolved),
        Some(users.integer)
    );
    assert_eq!(chalk_symbolic_inner(&users.db, &users.scope, users.text), None);
}

#[test]
fn nothing_is_known_without_the_extension_classes() {
    let mut users = users();
    users.scope.symbols.extensions.clear();
    for ty in [users.windowed, users.text] {
        let found = chalk_symbolic_feature_type(&users.db, &users.scope, ty);
        assert!(matches!(found, Shown::Unknown));
    }
}

#[test]
fn initializers_are_held_against_the_values_of_features() {
    let mut users = users();
    assert_eq!(
        chalk_feature_initializer_assignment(
            &users.db,
            &users.scope,
            true,
            users.primary,
            false,
            users.resolved,
        ),
        (users.integer, users.integer, true)
    );
    assert_eq!(
        chalk_feature_initializer_assignment(
            &users.db,
            &users.scope,
            true,
            users.primary,
            true,
            users.resolved,
        ),
        (users.primary, users.resolved, false)
    );
    users.scope.is_class = false;
    assert_eq!(
        chalk_feature_initializer_assignment(
            &users.db,
            &users.scope,
            true,
            users.primary,
            false,
            users.text,
        ),
        (users.primary, users.text, false)
    );
}

#[test]
fn type_variables_are_inferred_by_the_resolved_arm() {
    let users = users();
    let arm = chalk_resolved_union_inference_arm(&users.db, users.union, users.argument);
    assert!(arm.is_some());
    assert_eq!(chalk_resolved_union_inference_arm(&users.db, users.union, users.text), None);
    assert_eq!(
        chalk_resolved_union_inference_arm(&users.db, users.optional, users.argument),
        None
    );
}

#[test]
fn members_are_what_the_class_declares() {
    let users = users();
    let member = |name: &str| chalk_feature_member(&users.db, &users.scope, users.user, name);
    assert_eq!(member("id"), Some(users.integer));
    assert_eq!(member("nickname"), Some(users.optional));
    assert_eq!(member("extra"), Some(users.text));
    assert_eq!(member("limit"), None);
    assert_eq!(member("missing"), None);
    assert_eq!(
        chalk_feature_member(&users.db, &users.scope, users.text, "id"),
        None
    );
    assert_eq!(chalk_instance_member(&users.db, users.user, "id"), Some(users.primary));
    assert_eq!(chalk_instance_member(&users.db, users.user, "limit"), None);
}

#[test]
fn paths_begin_at_a_name_and_have_members() {
    let users = users();
    let read = FeaturePath::from_expression(&path(users.user_class, "account.owner")).unwrap();
    assert_eq!(read.root, users.user_class);
    let names: Vec<&str> = read.members.iter().map(|member| member.name.as_str()).collect();
    assert_eq!(names, ["account", "owner"]);
    let nodes: Vec<usize> = read.members.iter().map(|member| member.node).collect();
    assert_eq!(nodes, [1, 2]);
    assert!(FeaturePath::from_expression(&expression(
        0,
        ExpressionKind::Name { ty: users.user_class }
    ))
    .is_none());
    assert!(FeaturePath::from_expression(&none_literal()).is_none());
}

fn branches(users: &Users, condition: Expression) -> ChalkIfThenElseRefinements {
    let function = Some(CalledFunction {
        name: "if_then_else".to_owned(),
        module: Some("chalk.functions".to_owned()),
    });
    let other = || expression(92, ExpressionKind::Other);
    chalk_if_then_else_refinements(
        &users.db,
        &users.scope,
        &function,
        &vec![condition, other(), other()],
        false,
    )
    .unwrap()
}

fn said(refinements: &ChalkRefinements) -> Vec<(String, ChalkPathRefinement)> {
    refinements
        .paths
        .iter()
        .map(|(path, says)| (path.members.join("."), *says))
        .collect()
}

fn nickname_is_not_none(users: &Users) -> Expression {
    compare(path(users.underscore, "nickname"), Comparator::IsNot, none_literal())
}

#[test]
fn comparisons_with_none_refine_the_branches() {
    let users = users();
    let found = branches(&users, nickname_is_not_none(&users));
    let path_name = "nickname".to_owned();
    assert_eq!(said(&found.if_true), [(path_name.clone(), ChalkPathRefinement::NonNone)]);
    assert_eq!(said(&found.if_false), [(path_name.clone(), ChalkPathRefinement::OnlyNone)]);

    let swapped = compare(none_literal(), Comparator::Equal, path(users.underscore, "nickname"));
    let found = branches(&users, swapped);
    assert_eq!(said(&found.if_true), [(path_name.clone(), ChalkPathRefinement::OnlyNone)]);

    let negated = expression(
        93,
        ExpressionKind::Unary {
            sign: UnaryOperator::Invert,
            operand: Box::new(nickname_is_not_none(&users)),
        },
    );
    let found = branches(&users, negated);
    assert_eq!(said(&found.if_true), [(path_name, ChalkPathRefinement::OnlyNone)]);
}

#[test]
fn conjunctions_and_disjunctions_refine_one_branch() {
    let users = users();
    let both = |operator: Operator| {
        expression(
            93,
            ExpressionKind::Binary {
                operator,
                left: Box::new(nickname_is_not_none(&users)),
                right: Box::new(nickname_is_not_none(&users)),
            },
        )
    };
    let found = branches(&users, both(Operator::BitAnd));
    assert_eq!(said(&found.if_true).len(), 2);
    assert!(said(&found.if_false).is_empty());
    let found = branches(&users, both(Operator::BitOr));
    assert!(said(&found.if_true).is_empty());
    assert_eq!(said(&found.if_false).len(), 2);
    let found = branches(&users, both(Operator::Other));
    assert!(said(&found.if_true).is_empty() && said(&found.if_false).is_empty());

    let values = vec![nickname_is_not_none(&users), nickname_is_not_none(&users)];
    let found = branches(
        &users,
        expression(94, ExpressionKind::Boolean { connective: Connective::Or, values }),
    );
    assert!(said(&found.if_true).is_empty());
    assert_eq!(said(&found.if_false).len(), 2);
}

#[test]
fn other_calls_are_no_conditional_expressions() {
    let users = users();
    let call = |name: &str, module: Option<&str>, has_keywords: bool, starred: bool| {
        let function = Some(CalledFunction {
            name: name.to_owned(),
            module: module.map(str::to_owned),
        });
        let last = if starred { ExpressionKind::Starred } else { ExpressionKind::Other };
        let arguments = vec![
            nickname_is_not_none(&users),
            expression(92, ExpressionKind::Other),
            expression(95, last),
        ];
        chalk_if_then_else_refinements(&users.db, &users.scope, &function, &arguments, has_keywords)
            .is_some()
    };
    assert!(call("if_then_else", Some("chalk.functions"), false, false));
    assert!(call("if_then_else", Some("chalk.features.underscore"), false, false));
    assert!(!call("if_then_else", Some("elsewhere"), false, false));
    assert!(!call("if_then_else", None, false, false));
    assert!(!call("coalesce", Some("chalk.functions"), false, false));
    assert!(!call("if_then_else", Some("chalk.functions"), true, false));
    assert!(!call("if_then_else", Some("chalk.functions"), false, true));
    let none =
        chalk_if_then_else_refinements(&users.db, &users.scope, &None, &Vec::new(), false);
    assert!(none.is_none());
}

#[test]
fn only_branches_know_more_and_leaving_forgets_it() {
    let users = users();
    let found = branches(&users, nickname_is_not_none(&users));
    let mut known = nothing_known();
    let before = known.enter_argument(Some(&found), 0);
    assert!(said(&known).is_empty());
    known.leave_argument(before);
    let before = known.enter_argument(Some(&found), 1);
    assert_eq!(said(&known).len(), 1);
    let value = infer_chalk_feature_path_value_expression(
        &users.db,
        &users.scope,
        &known,
        &path(users.underscore, "nickname"),
    )
    .unwrap();
    assert_eq!(shown(&value.shown), ("resolved", Some(users.text)));
    known.leave_argument(before);
    assert!(said(&known).is_empty());
    known.enter_argument(Some(&found), 2);
    let value = infer_chalk_feature_path_value_expression(
        &users.db,
        &users.scope,
        &known,
        &path(users.underscore, "nickname"),
    )
    .unwrap();
    assert_eq!(shown(&value.shown), ("resolved", Some(users.absent)));
}

#[test]
fn annotations_are_what_features_are_declared_to_be() {
    let users = users();
    let infer = |root: Type, members: &str| {
        infer_chalk_feature_path_type_expression(
            &users.db,
            &users.scope,
            &nothing_known(),
            &path(root, members),
        )
    };
    let found = infer(users.user_class, "account.owner").unwrap();
    assert_eq!(found.ty, users.text);
    let nodes: Vec<usize> = found.stored.iter().map(|stored| stored.node).collect();
    assert_eq!(nodes, [0, 1]);
    assert_eq!(infer(users.user_class, "id").unwrap().ty, users.integer);
    assert!(infer(users.user_class, "missing").is_none());
    assert!(infer(users.text, "id").is_none());
}

#[test]
fn values_of_paths_stand_for_features() {
    let users = users();
    let infer = |root: Type, members: &str| {
        infer_chalk_feature_path_value_expression(
            &users.db,
            &users.scope,
            &nothing_known(),
            &path(root, members),
        )
    };
    let found = infer(users.user_class, "account.owner").unwrap();
    assert_eq!(shown(&found.shown), ("resolved", Some(users.text)));
    assert_eq!(found.report, None);
    let found = infer(users.underscore, "counts").unwrap();
    assert_eq!(shown(&found.shown), ("windowed", Some(users.integer)));
    assert!(infer(users.user_class, "missing").is_none());
    assert!(infer(users.underscore, "chunk").is_none());
    let found = infer(users.underscore, "missing").unwrap();
    assert_eq!(found.report, Some(MissingMember::Missing));
    assert_eq!(shown(&found.shown), ("plain", Some(users.db.unknown)));
    let found = infer(users.underscore, "limit").unwrap();
    assert_eq!(found.report, Some(MissingMember::PossiblyMissing));
    assert_eq!(shown(&found.shown), ("resolved", Some(users.integer)));
}

#[test]
fn paths_are_resolved_member_by_member() {
    let users = users();
    let read = FeaturePath::from_expression(&path(users.user_class, "account.owner")).unwrap();
    let manner = Manner {
        store_terminal: true,
        resolved_values: true,
        diagnose_missing: false,
        pass_optional: false,
    };
    let found = resolve_chalk_feature_path_from(
        &users.db,
        &users.scope,
        &nothing_known(),
        &read,
        users.user,
        manner,
    )
    .unwrap();
    let members: Vec<(&str, Type)> =
        found.members.iter().map(|member| (member.name.as_str(), member.ty)).collect();
    assert_eq!(members, [("account", users.account), ("owner", users.text)]);
    assert_eq!(found.stored.len(), 3);
    assert_eq!(shown(&found.stored[0].shown), ("plain", Some(users.user_class)));
    assert_eq!(shown(&found.stored[2].shown), ("resolved", Some(users.text)));
}

#[test]
fn sets_of_features_select_paths() {
    let users = users();
    let infer = |slice: Expression, value: Type| {
        infer_chalk_features_type_expression(
            &users.db,
            &users.scope,
            &nothing_known(),
            &slice,
            value,
        )
    };
    let elements = vec![path(users.user_class, "id"), path(users.user_class, "account.owner")];
    let slice = expression(9, ExpressionKind::Tuple { elements });
    let found = infer(slice, users.feature_set).unwrap();
    let [id, account] = found.protocol.members.as_slice() else {
        panic!("two members are selected: {:?}", found.protocol);
    };
    assert_eq!((id.name.as_str(), account.name.as_str()), ("id", "account"));
    assert!(matches!(id.ty, ProtocolMemberType::Selected(ty) if ty == users.integer));
    match &account.ty {
        ProtocolMemberType::Nested(inner) => {
            assert_eq!(inner.members[0].name, "owner");
            let selected = &inner.members[0].ty;
            assert!(matches!(selected, ProtocolMemberType::Selected(ty) if *ty == users.text));
        }
        ProtocolMemberType::Selected(_) => panic!("the account is not selected itself"),
    }
    assert!(infer(path(users.user_class, "id"), users.text).is_none());
    assert!(infer(path(users.user_class, "missing"), users.feature_set).is_none());
    let empty = expression(9, ExpressionKind::Tuple { elements: Vec::new() });
    assert!(infer(empty, users.feature_set).is_none());
}

#[test]
fn constructor_calls_supply_fields() {
    let users = users();
    let argument = |index: usize, definitely_supplied: bool| ArgumentMatch {
        matched: true,
        parameters: vec![MatchedParameter { index, definitely_supplied }],
    };
    let parameter = |name: &str, ty: Type| BoundParameter {
        name: Some(name.to_owned()),
        ty: Some(ty),
    };
    let binding = |has_errors: bool, is_dataclass_like: bool| ConstructorBinding {
        class: Some(users.user_data),
        is_dataclass_like,
        overloads: vec![BoundOverload {
            has_errors,
            parameters: vec![
                parameter("id", users.integer),
                parameter("nickname", users.text),
                parameter("other", users.text),
            ],
            argument_matches: vec![argument(0, true), argument(1, false), argument(2, true)],
        }],
    };
    let supplied = |binding: &ConstructorBinding| -> Vec<(String, Type)> {
        refine_chalk_features_return_type(&users.db, binding)
            .into_iter()
            .map(|field| (field.name, field.ty))
            .collect()
    };
    assert_eq!(supplied(&binding(false, true)), [("id".to_owned(), users.integer)]);
    assert_eq!(supplied(&binding(true, true)), [("id".to_owned(), users.db.unknown)]);
    assert!(supplied(&binding(false, false)).is_empty());
    let elsewhere = ConstructorBinding {
        class: None,
        is_dataclass_like: true,
        overloads: Vec::new(),
    };
    assert!(supplied(&elsewhere).is_empty());
}

#[test]
fn returns_are_complete_incomplete_or_wrong() {
    let mut picture = Picture::new();
    let class = picture.class("int", "builtins");
    let integer = picture.instance(class);
    picture.db.types[integer.id].assignable_to.push(integer);
    let class = picture.class("str", "builtins");
    let text = picture.instance(class);
    picture.db.types[text.id].assignable_to.push(text);
    let always = Definedness::AlwaysDefined;
    let maybe = Definedness::PossiblyUndefined;
    let features = SynthesizedProtocolKind::ChalkFeatures;
    let supplied = SynthesizedProtocolKind::ChalkSuppliedFeatures;
    let inner = picture.protocol(features, &[("owner", text, always)]);
    let expected = picture.protocol(features, &[("id", integer, always), ("account", inner, always)]);
    let single = picture.protocol(features, &[("account", inner, always)]);
    let some = picture.protocol(supplied, &[("id", integer, always)]);
    let all = picture.protocol(supplied, &[("id", integer, always), ("account", inner, maybe)]);
    let wrong = picture.protocol(supplied, &[("id", text, always)]);
    let both = picture.add(plain(
        TypeKind::Intersection { positive: vec![integer, some], top: integer, bottom: integer },
        None,
    ));
    let account = picture.protocol(features, &[("identifier", text, always)]);
    let selected = picture.protocol(
        features,
        &[("account", account, always), ("name", text, always), ("score", integer, always)],
    );
    let named = picture.protocol(supplied, &[("name", text, always)]);
    let db = &picture.db;

    let missing = |actual: Type| chalk_missing_return_fields(db, expected, actual);
    assert_eq!(missing(some), Some(vec!["account.owner".to_owned()]));
    assert_eq!(missing(both), Some(vec!["account.owner".to_owned()]));
    assert_eq!(missing(all), Some(vec!["account.owner".to_owned()]));
    assert_eq!(missing(wrong), None);
    assert_eq!(missing(expected), None);
    assert_eq!(
        missing(integer),
        Some(vec!["id".to_owned(), "account.owner".to_owned()])
    );
    assert_eq!(chalk_missing_return_fields(db, integer, some), None);
    assert_eq!(
        chalk_missing_return_fields(db, selected, named),
        Some(vec!["account.identifier".to_owned(), "score".to_owned()])
    );

    assert!(chalk_features_return_is_compatible(db, single, text));
    assert!(!chalk_features_return_is_compatible(db, single, integer));
    assert!(!chalk_features_return_is_compatible(db, expected, text));
    assert!(!chalk_features_return_is_compatible(db, integer, integer));
    assert!(chalk_features_return_is_incomplete(db, expected, some));
    assert!(!chalk_features_return_is_incomplete(db, single, text));
    assert!(!chalk_features_return_is_incomplete(db, expected, wrong));
}

// ---------------------------------------------------------------------------------------------
// Relationships
// ---------------------------------------------------------------------------------------------

/// Classes of features with relationships between them.
struct Related {
    picture: Picture,
    dataframe: Class,
    scope: Scope,
    underscore: Type,
}

/// What a path is in a scope: what it stands for, or that a member is missing.
#[derive(Debug, PartialEq)]
enum Read {
    Value(Type),
    Missing,
    Ordinary,
}

impl Related {
    fn new() -> Self {
        let mut picture = Picture::new();
        let dataframe = picture.class("DataFrame", "chalk.features");
        let dataframe_literal = picture.literal(dataframe);
        let resolved = picture.class("Resolved", "ty_chalk_extensions");
        let resolved_literal = picture.literal(resolved);
        let underscore = picture.add(plain(TypeKind::Other, None));
        let symbol = |name: &str, ty: Type| Symbol { name: name.to_owned(), ty };
        let scope = Scope {
            symbols: Symbols {
                features: vec![symbol("DataFrame", dataframe_literal), symbol("_", underscore)],
                streams: Vec::new(),
                extensions: vec![symbol("Resolved", resolved_literal)],
                underscore: vec!["chalk_window".to_owned(), "chalk_now".to_owned()],
            },
            is_class: false,
            enclosing: None,
            row: None,
        };
        Related { picture, dataframe, scope, underscore }
    }

    fn value(&mut self, name: &str) -> Type {
        let class = self.picture.class(name, "builtins");
        self.picture.instance(class)
    }

    /// A class of features, its instances and its type.
    fn features(&mut self, name: &str) -> (Class, Type, Type) {
        let class = self.picture.class(name, "models");
        self.picture.db.classes[class.id].is_features = true;
        let instance = self.picture.instance(class);
        let literal = self.picture.literal(class);
        self.picture.db.types[literal.id].instance = Some(instance);
        (class, instance, literal)
    }

    fn rows(&mut self, row: Type) -> Type {
        let class = self.picture.applied(self.dataframe, row);
        self.picture.instance(class)
    }

    fn optional(&mut self, ty: Type) -> Type {
        let mut none = plain(TypeKind::Instance, None);
        none.is_none = true;
        let absent = self.picture.add(none);
        let mut union = plain(TypeKind::Union { elements: vec![ty, absent] }, None);
        union.parts = Some(UnionParts { without_none: ty, only_none: absent });
        self.picture.add(union)
    }

    fn stand_in(&mut self, class: Type) {
        self.scope.is_class = true;
        self.scope.enclosing = Some(class);
    }

    fn enter(&mut self, root: Type, members: &str) -> Option<Type> {
        self.scope.enter_subscript(&self.picture.db, &nothing_known(), &path(root, members))
    }

    fn leave(&mut self, outer: Option<Type>) {
        self.scope.leave_subscript(outer);
    }

    fn read(&self, root: Type, members: &str) -> Read {
        let found = infer_chalk_feature_path_value_expression(
            &self.picture.db,
            &self.scope,
            &nothing_known(),
            &path(root, members),
        );
        match found {
            Some(value) if value.report == Some(MissingMember::Missing) => Read::Missing,
            Some(value) => {
                assert_eq!(value.report, None);
                match value.shown {
                    Shown::Resolved(ty) => Read::Value(ty),
                    other => panic!("a feature is expected: {other:?}"),
                }
            },
            None => Read::Ordinary,
        }
    }
}

#[test]
fn underscore_is_a_row_in_a_subscript() {
    let mut related = Related::new();
    let underscore = related.underscore;
    let datetime = related.value("datetime");
    let text = related.value("str");
    let integer = related.value("int");
    let (event, event_row, _) = related.features("Event");
    let (purchase, purchase_row, _) = related.features("Purchase");
    let (user, _, user_class) = related.features("User");
    related.picture.declare(event, "timestamp", datetime);
    related.picture.declare(purchase, "amount", text);
    let events = related.rows(event_row);
    let purchases = related.rows(purchase_row);
    related.picture.declare(user, "id", integer);
    related.picture.declare(user, "bare_events", events);
    related.picture.declare(user, "events", events);
    related.picture.declare(user, "purchases", purchases);

    related.stand_in(user_class);
    for receiver in ["bare_events", "events"] {
        let outer = related.enter(underscore, receiver);
        assert_eq!(outer, None);
        assert_eq!(related.scope.row, Some(event_row));
        assert_eq!(related.read(underscore, "timestamp"), Read::Value(datetime));
        assert_eq!(related.read(underscore, "chalk_window"), Read::Ordinary);
        assert_eq!(related.read(underscore, "chalk_now"), Read::Ordinary);
        assert_eq!(related.read(underscore, "amount"), Read::Missing);
        assert_eq!(related.read(underscore, "id"), Read::Missing);
        assert_eq!(related.read(user_class, "id"), Read::Value(integer));
        related.leave(outer);
    }
    assert_eq!(related.read(underscore, "timestamp"), Read::Missing);
    assert_eq!(related.read(underscore, "amount"), Read::Missing);
    assert_eq!(related.read(underscore, "id"), Read::Value(integer));
    let outer = related.enter(underscore, "purchases");
    assert_eq!(related.read(underscore, "amount"), Read::Value(text));
    related.leave(outer);

    related.scope.is_class = false;
    related.scope.enclosing = None;
    assert_eq!(related.read(underscore, "timestamp"), Read::Ordinary);
    let outer = related.enter(user_class, "events");
    assert_eq!(related.read(underscore, "timestamp"), Read::Value(datetime));
    related.leave(outer);
    assert_eq!(related.read(underscore, "timestamp"), Read::Ordinary);
}

#[test]
fn subscripts_of_other_features_have_no_rows() {
    let mut related = Related::new();
    let underscore = related.underscore;
    let text = related.value("str");
    let (user, user_row, user_class) = related.features("User");
    let texts = related.rows(text);
    related.picture.declare(user, "name", text);
    related.picture.declare(user, "texts", texts);
    related.stand_in(user_class);
    let row = |related: &Related, members: &str| {
        chalk_relationship_row(
            &related.picture.db,
            &related.scope,
            &nothing_known(),
            &path(underscore, members),
        )
    };
    for members in ["name", "texts", "missing", "chalk_window"] {
        assert_eq!(row(&related, members), None, "{members}");
        let outer = related.enter(underscore, members);
        assert_eq!(related.read(underscore, "name"), Read::Value(text));
        related.leave(outer);
    }
    let users = related.rows(user_row);
    assert_eq!(chalk_row_type(&related.picture.db, &related.scope, users), Some(user_row));
    assert_eq!(chalk_row_type(&related.picture.db, &related.scope, texts), None);
    related.scope.symbols.features.remove(0);
    assert_eq!(chalk_row_type(&related.picture.db, &related.scope, users), None);
}

#[test]
fn optional_members_lead_on_to_relationships() {
    let mut related = Related::new();
    let underscore = related.underscore;
    let integer = related.value("int");
    let score = related.optional(integer);
    let (payment, payment_row, _) = related.features("PaymentAccount");
    let (account, account_row, _) = related.features("Account");
    let (driver, _, driver_class) = related.features("Driver");
    let (charge, charge_row, _) = related.features("Charge");
    let charges = related.rows(charge_row);
    let maybe_payment = related.optional(payment_row);
    related.picture.declare(payment, "charges", charges);
    related.picture.declare(account, "payment_account", maybe_payment);
    related.picture.declare(driver, "account", account_row);
    related.picture.declare(charge, "risk_score", score);

    let receiver = path(driver_class, "account.payment_account.charges");
    let found = infer_chalk_receiver_expression(
        &related.picture.db,
        &related.scope,
        &nothing_known(),
        &receiver,
    )
    .unwrap();
    assert_eq!(shown(&found.shown), ("resolved", Some(charges)));
    assert_eq!(found.report, None);
    assert_eq!(related.read(driver_class, "account.payment_account.charges"), Read::Ordinary);
    assert!(infer_chalk_feature_path_type_expression(
        &related.picture.db,
        &related.scope,
        &nothing_known(),
        &receiver,
    )
    .is_none());
    assert_eq!(
        related.read(driver_class, "account.payment_account"),
        Read::Value(maybe_payment)
    );
    let outer = related.enter(driver_class, "account.payment_account.charges");
    assert_eq!(related.scope.row, Some(charge_row));
    assert_eq!(related.read(underscore, "risk_score"), Read::Value(score));
    assert_eq!(related.read(underscore, "does_not_exist"), Read::Missing);
    related.leave(outer);
    assert_eq!(related.scope.row, None);

    related.stand_in(driver_class);
    assert_eq!(related.enter(underscore, "account.payment_account.charges"), None);
    assert_eq!(related.scope.row, None);
}

#[test]
fn inner_subscripts_replace_the_rows() {
    let mut related = Related::new();
    let underscore = related.underscore;
    let integer = related.value("int");
    let (event, event_row, _) = related.features("Event");
    let (group, group_row, _) = related.features("Group");
    let (user, _, user_class) = related.features("User");
    let events = related.rows(event_row);
    let groups = related.rows(group_row);
    related.picture.declare(event, "timestamp", integer);
    related.picture.declare(group, "events", events);
    related.picture.declare(user, "groups", groups);
    related.stand_in(user_class);

    assert_eq!(related.read(underscore, "events"), Read::Missing);
    let outside = related.enter(underscore, "groups");
    assert_eq!(related.read(underscore, "events"), Read::Value(events));
    assert_eq!(related.read(underscore, "timestamp"), Read::Missing);
    let outer = related.enter(underscore, "events");
    assert_eq!(outer, Some(group_row));
    assert_eq!(related.read(underscore, "timestamp"), Read::Value(integer));
    assert_eq!(related.read(underscore, "events"), Read::Missing);
    related.leave(outer);
    assert_eq!(related.read(underscore, "events"), Read::Value(events));
    related.leave(outside);
    assert_eq!(related.scope.row, None);
}

#[test]
fn conditions_in_a_subscript_are_about_its_rows() {
    let mut related = Related::new();
    let underscore = related.underscore;
    let integer = related.value("int");
    let score = related.optional(integer);
    let (event, event_row, _) = related.features("Event");
    let (user, _, user_class) = related.features("User");
    let events = related.rows(event_row);
    related.picture.declare(event, "score", score);
    related.picture.declare(user, "events", events);
    related.picture.declare(user, "score", score);
    related.stand_in(user_class);

    let outer = related.enter(underscore, "events");
    let function = Some(CalledFunction {
        name: "if_then_else".to_owned(),
        module: Some("chalk.functions".to_owned()),
    });
    let condition = compare(path(underscore, "score"), Comparator::IsNot, none_literal());
    let arguments = vec![condition, path(underscore, "score"), none_literal()];
    let refinements = chalk_if_then_else_refinements(
        &related.picture.db,
        &related.scope,
        &function,
        &arguments,
        false,
    )
    .unwrap();
    let mut known = nothing_known();
    known.enter_argument(Some(&refinements), 1);
    let infer = |related: &Related, known: &ChalkRefinements| {
        let found = infer_chalk_feature_path_value_expression(
            &related.picture.db,
            &related.scope,
            known,
            &path(underscore, "score"),
        )
        .unwrap();
        shown(&found.shown).1
    };
    assert_eq!(infer(&related, &known), Some(integer));
    related.leave(outer);
    assert_eq!(infer(&related, &known), Some(score));
}
