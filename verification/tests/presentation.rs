use ty_chalk::presentation::{
    add_group_displays, displays_for_call, format_supported_type, present_supported_signatures,
    BudgetExceeded, PresentationBudget,
};
use ty_chalk::supported_functions::{
    CallKind, SupportedArg, SupportedCall, SupportedEntry, SupportedFuncs, SupportedSignature,
    SupportedTy,
};
use ty_chalk::type_matcher::TypeMatch;

fn call(kind: CallKind, name: &str) -> SupportedCall {
    SupportedCall::new(kind, name)
}

fn signature(args: Vec<SupportedArg>) -> SupportedSignature {
    SupportedSignature { args }
}

fn arg(ty: SupportedTy) -> SupportedArg {
    SupportedArg {
        ty,
        argument_name: None,
        has_default: false,
    }
}

fn named_arg(ty: SupportedTy, name: &str, has_default: bool) -> SupportedArg {
    SupportedArg {
        ty,
        argument_name: Some(name.to_owned()),
        has_default,
    }
}

fn supported(entries: Vec<(SupportedCall, Vec<SupportedSignature>)>) -> SupportedFuncs {
    SupportedFuncs::from_impls(
        entries
            .into_iter()
            .map(|(call, signatures)| SupportedEntry { call, signatures })
            .collect(),
    )
}

fn integer() -> SupportedTy {
    SupportedTy::Int { nullable: false }
}

fn nullable_int() -> SupportedTy {
    SupportedTy::Int { nullable: true }
}

fn string() -> SupportedTy {
    SupportedTy::Str { nullable: false }
}

fn none() -> SupportedTy {
    SupportedTy::NoneType { nullable: true }
}

#[test]
fn builtin_keeps_first_argument_and_method_omits_receiver() {
    let len = call(CallKind::Builtin, "len");
    let method = call(CallKind::Method, "method");
    let supported = supported(vec![
        (len.copied(), vec![signature(vec![arg(integer())])]),
        (
            method.copied(),
            vec![signature(vec![
                arg(SupportedTy::Other {
                    nullable: false,
                    name: "Receiver".to_owned(),
                }),
                arg(integer()),
            ])],
        ),
    ]);

    assert_eq!(
        present_supported_signatures(&supported, &vec![method, len]),
        ["len(int)", "method(int)"]
    );
}

#[test]
fn method_receiver_is_projected_before_grouping_and_nullable_collapse() {
    let method = call(CallKind::Method, "method");
    let supported = supported(vec![(
        method.copied(),
        vec![
            signature(vec![
                named_arg(
                    SupportedTy::Other {
                        nullable: false,
                        name: "FirstReceiver".to_owned(),
                    },
                    "first_self",
                    false,
                ),
                named_arg(integer(), "value", false),
            ]),
            signature(vec![
                named_arg(
                    SupportedTy::Other {
                        nullable: false,
                        name: "SecondReceiver".to_owned(),
                    },
                    "second_self",
                    true,
                ),
                named_arg(none(), "value", false),
            ]),
        ],
    )]);

    assert_eq!(
        present_supported_signatures(&supported, &vec![method]),
        ["method(value: int | None)"]
    );
}

#[test]
fn preserves_argument_names_and_defaults() {
    let pow = call(CallKind::Builtin, "pow");
    let supported = supported(vec![(
        pow.copied(),
        vec![signature(vec![
            named_arg(integer(), "base", false),
            named_arg(integer(), "exponent", true),
        ])],
    )]);

    assert_eq!(
        present_supported_signatures(&supported, &vec![pow]),
        ["pow(base: int, exponent: int = ...)"]
    );
}

#[test]
fn formats_every_supported_type_category_and_recursive_type() {
    let types = [
        SupportedTy::Any { nullable: false },
        SupportedTy::Bool { nullable: false },
        SupportedTy::Bytes { nullable: false },
        SupportedTy::Class {
            nullable: true,
            module: "models".to_owned(),
            name: "User".to_owned(),
        },
        SupportedTy::Counter {
            nullable: false,
            items: Box::new(integer()),
        },
        SupportedTy::Date { nullable: false },
        SupportedTy::DateTime { nullable: false },
        SupportedTy::Dict {
            nullable: false,
            key_type: Box::new(string()),
            value_type: Box::new(SupportedTy::List {
                nullable: false,
                items: Box::new(nullable_int()),
            }),
        },
        SupportedTy::Float { nullable: false },
        SupportedTy::FrozenSet {
            nullable: false,
            items: Box::new(string()),
        },
        SupportedTy::Generator {
            nullable: false,
            items: Box::new(SupportedTy::Bytes { nullable: false }),
        },
        SupportedTy::HashlibHash { nullable: false },
        integer(),
        SupportedTy::Iterable {
            nullable: false,
            items: Box::new(SupportedTy::Any { nullable: false }),
        },
        SupportedTy::Json { nullable: false },
        SupportedTy::List {
            nullable: false,
            items: Box::new(integer()),
        },
        SupportedTy::Module {
            nullable: false,
            name: "math".to_owned(),
        },
        none(),
        SupportedTy::ReMatch { nullable: false },
        SupportedTy::RePattern { nullable: false },
        SupportedTy::RequestsHttpResponse { nullable: false },
        SupportedTy::SetType {
            nullable: false,
            items: Box::new(integer()),
        },
        SupportedTy::SequenceMatcher { nullable: false },
        string(),
        SupportedTy::SubClassOf {
            ty_name: "Proto".to_owned(),
            match_nullable: true,
        },
        SupportedTy::Time { nullable: false },
        SupportedTy::Timedelta { nullable: false },
        SupportedTy::TimeZone { nullable: false },
        SupportedTy::Tuple {
            nullable: false,
            items: vec![integer(), string()],
            is_variable: false,
        },
        SupportedTy::Tuple {
            nullable: false,
            items: vec![SupportedTy::Float { nullable: false }],
            is_variable: true,
        },
        SupportedTy::Other {
            nullable: true,
            name: "Custom".to_owned(),
        },
    ];

    assert_eq!(
        types.iter().map(format_supported_type).collect::<Vec<_>>(),
        [
            "Any",
            "bool",
            "bytes",
            "class[models.User] | None",
            "Counter[int]",
            "date",
            "datetime",
            "dict[str, list[int | None]]",
            "float",
            "frozenset[str]",
            "Generator[bytes]",
            "hashlib.Hash",
            "int",
            "Iterable[Any]",
            "json",
            "list[int]",
            "module[math]",
            "None",
            "Match",
            "Pattern",
            "RequestsHttpResponse",
            "set[int]",
            "SequenceMatcher",
            "str",
            "subclass[Proto] | None",
            "time",
            "timedelta",
            "timezone",
            "tuple[int, str]",
            "tuple[float, ...]",
            "Custom | None",
        ]
    );
}

#[test]
fn deduplicates_and_orders_independently_of_call_and_signature_order() {
    let alpha = call(CallKind::Builtin, "alpha");
    let beta = call(CallKind::Builtin, "beta");
    let forward_supported = supported(vec![
        (
            alpha.copied(),
            vec![
                signature(vec![arg(integer())]),
                signature(vec![arg(string())]),
            ],
        ),
        (
            beta.copied(),
            vec![signature(vec![arg(SupportedTy::Bool { nullable: false })])],
        ),
    ]);
    let reverse_supported = supported(vec![
        (
            alpha.copied(),
            vec![
                signature(vec![arg(string())]),
                signature(vec![arg(integer())]),
            ],
        ),
        (
            beta.copied(),
            vec![signature(vec![arg(SupportedTy::Bool { nullable: false })])],
        ),
    ]);

    let forward =
        present_supported_signatures(&forward_supported, &vec![alpha.copied(), beta.copied()]);
    let reverse =
        present_supported_signatures(&reverse_supported, &vec![beta, alpha.copied(), alpha]);
    assert_eq!(forward, ["alpha(int)", "alpha(str)", "... [1 more]"]);
    assert_eq!(forward, reverse);
}

#[test]
fn applies_one_global_cap_and_ignores_missing_registry_calls() {
    let alpha = call(CallKind::Builtin, "alpha");
    let beta = call(CallKind::Builtin, "beta");
    let gamma = call(CallKind::Builtin, "gamma");
    let delta = call(CallKind::Builtin, "delta");
    let missing = call(CallKind::Builtin, "missing");
    let supported = supported(vec![
        (alpha.copied(), vec![signature(vec![arg(integer())])]),
        (beta.copied(), vec![signature(vec![arg(integer())])]),
        (gamma.copied(), vec![signature(vec![arg(integer())])]),
        (delta.copied(), vec![signature(vec![arg(integer())])]),
    ]);

    assert_eq!(
        present_supported_signatures(&supported, &vec![missing, gamma, beta, delta, alpha]),
        ["alpha(int)", "beta(int)", "... [2 more]"]
    );
}

#[test]
fn collapses_only_a_complete_top_level_nullable_cartesian_product() {
    let function = call(CallKind::Builtin, "f");
    let supported = supported(vec![(
        function.copied(),
        vec![
            signature(vec![
                named_arg(integer(), "left", false),
                named_arg(integer(), "right", true),
            ]),
            signature(vec![
                named_arg(integer(), "left", false),
                named_arg(none(), "right", true),
            ]),
            signature(vec![
                named_arg(none(), "left", false),
                named_arg(integer(), "right", true),
            ]),
            signature(vec![
                named_arg(none(), "left", false),
                named_arg(none(), "right", true),
            ]),
        ],
    )]);

    assert_eq!(
        present_supported_signatures(&supported, &vec![function]),
        ["f(left: int | None, right: int | None = ...)"]
    );
}

#[test]
fn diagonal_and_incomplete_nullable_products_stay_separate() -> Result<(), BudgetExceeded> {
    let diagonal = call(CallKind::Builtin, "diagonal");
    let incomplete = call(CallKind::Builtin, "incomplete");
    let diagonal_signatures = vec![
        signature(vec![arg(integer()), arg(integer())]),
        signature(vec![arg(none()), arg(none())]),
    ];
    let incomplete_signatures = vec![
        signature(vec![arg(integer()), arg(integer())]),
        signature(vec![arg(integer()), arg(none())]),
        signature(vec![arg(none()), arg(none())]),
    ];

    let mut budget = PresentationBudget::new();
    assert_eq!(
        displays_for_call(&diagonal, &diagonal_signatures, &mut budget)?,
        ["diagonal(None, None)", "diagonal(int, int)"]
    );
    assert_eq!(
        displays_for_call(&incomplete, &incomplete_signatures, &mut budget)?,
        [
            "incomplete(None, None)",
            "incomplete(int, None)",
            "incomplete(int, int)",
        ]
    );
    Ok(())
}

#[test]
fn nullable_diagonal_stays_separate() {
    let function = call(CallKind::Builtin, "f");
    let supported = supported(vec![(
        function.copied(),
        vec![
            signature(vec![arg(nullable_int()), arg(integer())]),
            signature(vec![arg(integer()), arg(nullable_int())]),
        ],
    )]);

    assert_eq!(
        present_supported_signatures(&supported, &vec![function]),
        ["f(int | None, int)", "f(int, int | None)"]
    );
}

#[test]
fn budget_exhaustion_falls_back_to_raw_signatures() {
    let function = call(CallKind::Builtin, "f");
    let nullable_args = (0..17).map(|_| arg(nullable_int())).collect();
    let non_nullable_args = (0..17).map(|_| arg(integer())).collect();
    let supported = supported(vec![(
        function.copied(),
        vec![signature(nullable_args), signature(non_nullable_args)],
    )]);

    let displays = present_supported_signatures(&supported, &vec![function]);
    assert_eq!(displays.len(), 2);
    assert!(displays[0].contains(" | None"));
    assert!(!displays[1].contains(" | None"));
}

#[test]
fn does_not_collapse_different_metadata_non_null_or_nested_structures(
) -> Result<(), BudgetExceeded> {
    let function = call(CallKind::Builtin, "f");
    let signatures = vec![
        signature(vec![named_arg(integer(), "value", false)]),
        signature(vec![named_arg(none(), "other", false)]),
        signature(vec![named_arg(none(), "value", true)]),
        signature(vec![named_arg(string(), "value", false)]),
        signature(vec![arg(SupportedTy::List {
            nullable: false,
            items: Box::new(integer()),
        })]),
        signature(vec![arg(SupportedTy::List {
            nullable: false,
            items: Box::new(nullable_int()),
        })]),
    ];

    let mut budget = PresentationBudget::new();
    assert_eq!(
        displays_for_call(&function, &signatures, &mut budget)?,
        [
            "f(list[int | None])",
            "f(list[int])",
            "f(other: None)",
            "f(value: None = ...)",
            "f(value: int)",
            "f(value: str)",
        ]
    );
    Ok(())
}

#[test]
fn the_budget_is_spent_and_then_exceeded() {
    let mut budget = PresentationBudget { remaining: 10 };
    assert_eq!(budget.spend(&vec![2, 2, 2]), Ok(()));
    assert_eq!(budget.remaining, 2);
    assert_eq!(budget.spend(&vec![3, 1, 1]), Err(BudgetExceeded));
    assert_eq!(budget.remaining, 2);
    assert_eq!(budget.spend(&vec![usize::MAX, 2, 0]), Err(BudgetExceeded));
    assert_eq!(budget.remaining, 2);
    assert_eq!(budget.spend(&vec![0, usize::MAX, 2]), Ok(()));
    assert_eq!(budget.remaining, 2);
    assert_eq!(budget.spend(&Vec::new()), Ok(()));
    assert_eq!(budget.remaining, 1);
    assert_eq!(budget.spend(&vec![1, 1, 1]), Ok(()));
    assert_eq!(budget.remaining, 0);
}

#[test]
fn displays_stay_where_the_work_is_too_much() {
    let function = call(CallKind::Builtin, "f");
    let signatures = vec![signature(vec![arg(integer())]), signature(vec![arg(none())])];
    let mut displays = vec!["before".to_owned()];
    let mut budget = PresentationBudget { remaining: 1 };
    assert_eq!(
        add_group_displays(&function, &signatures, 0, &mut displays, &mut budget),
        Err(BudgetExceeded)
    );
    assert_eq!(displays, ["before"]);

    let mut budget = PresentationBudget::new();
    assert_eq!(add_group_displays(&function, &Vec::new(), 0, &mut displays, &mut budget), Ok(()));
    assert_eq!(displays, ["before"]);
    assert_eq!(budget.remaining, PresentationBudget::new().remaining);
    assert_eq!(add_group_displays(&function, &signatures, 0, &mut displays, &mut budget), Ok(()));
    assert_eq!(displays, ["before", "f(int | None)"]);
}

#[test]
fn all_aggregation_prefers_known_mismatch() {
    assert_eq!(
        TypeMatch::Inconclusive.all(TypeMatch::NoMatch),
        TypeMatch::NoMatch
    );
}

#[test]
fn any_aggregation_prefers_match() {
    assert_eq!(
        TypeMatch::Inconclusive.any(TypeMatch::Match),
        TypeMatch::Match
    );
}

#[test]
fn aggregations_of_many_results_keep_their_precedence() {
    let mixed = vec![TypeMatch::Match, TypeMatch::Inconclusive, TypeMatch::NoMatch];
    assert_eq!(TypeMatch::all_results(&mixed), TypeMatch::NoMatch);
    assert_eq!(TypeMatch::any_results(&mixed), TypeMatch::Match);
    let open = vec![TypeMatch::Match, TypeMatch::Inconclusive];
    assert_eq!(TypeMatch::all_results(&open), TypeMatch::Inconclusive);
    assert_eq!(TypeMatch::all_results(&Vec::new()), TypeMatch::Match);
    assert_eq!(TypeMatch::any_results(&Vec::new()), TypeMatch::NoMatch);
}

#[test]
fn the_first_entry_of_a_call_stands() {
    let name = call(CallKind::Builtin, "f");
    let funcs = supported(vec![
        (name.copied(), vec![signature(vec![arg(integer())])]),
        (name.copied(), vec![signature(vec![arg(string())])]),
    ]);
    assert_eq!(funcs.len(), 1);
    assert_eq!(
        present_supported_signatures(&funcs, &vec![name]),
        ["f(int)"]
    );
}
